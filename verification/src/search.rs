//! Find and replace over the editor buffer and the files of the workspace.
//!
//! Positions are character indices. A search finds the leftmost non-overlapping
//! occurrences of the query, file by file, in the order the sources are given.
use vstd::prelude::*;
use crate::text::{chars_of, find_from, find_seq_from, occurs_at, push_all, push_range, string_of};

verus! {

// ------------------------------------------------------------------
// Model
// ------------------------------------------------------------------

/// Starts of the leftmost non-overlapping occurrences of `q` in `s` at or after `from`.
pub open spec fn match_starts(s: Seq<char>, q: Seq<char>, from: int) -> Seq<int>
    decreases s.len() + 1 - from,
{
    if q.len() == 0 || from < 0 {
        Seq::empty()
    } else {
        match find_from(s, q, from) {
            Some(i) => if from <= i && i + q.len() <= s.len() {
                seq![i] + match_starts(s, q, i + q.len())
            } else {
                Seq::empty()
            },
            None => Seq::empty(),
        }
    }
}

/// `s[from..]` with every occurrence counted by `match_starts` replaced by `r`.
pub open spec fn replaced_from(s: Seq<char>, q: Seq<char>, r: Seq<char>, from: int) -> Seq<char>
    decreases s.len() + 1 - from,
{
    if q.len() == 0 || from < 0 || from > s.len() {
        Seq::empty()
    } else {
        match find_from(s, q, from) {
            Some(i) => if from <= i && i + q.len() <= s.len() {
                s.subrange(from, i) + r + replaced_from(s, q, r, i + q.len())
            } else {
                s.subrange(from, s.len() as int)
            },
            None => s.subrange(from, s.len() as int),
        }
    }
}

/// `str::replace`: every non-overlapping occurrence of a non-empty `q`, leftmost first,
/// replaced by `r`.
pub open spec fn replace_all(s: Seq<char>, q: Seq<char>, r: Seq<char>) -> Seq<char> {
    replaced_from(s, q, r, 0)
}

/// A match as (file, start, end).
pub open spec fn file_matches(file: Seq<char>, s: Seq<char>, q: Seq<char>) -> Seq<(Seq<char>, int, int)> {
    match_starts(s, q, 0).map_values(|i: int| (file, i, i + q.len()))
}

/// The matches of `q` in each source (path, text), sources in the order given.
pub open spec fn all_matches(srcs: Seq<(Seq<char>, Seq<char>)>, q: Seq<char>) -> Seq<
    (Seq<char>, int, int),
>
    decreases srcs.len(),
{
    if srcs.len() == 0 {
        Seq::empty()
    } else {
        all_matches(srcs.drop_last(), q) + file_matches(srcs.last().0, srcs.last().1, q)
    }
}

pub open spec fn dist(a: int, b: int) -> int {
    if a >= b {
        a - b
    } else {
        b - a
    }
}

/// `k` is the first of the matches in `file` whose start is nearest to `start`.
pub open spec fn is_nearest(ms: Seq<(Seq<char>, int, int)>, file: Seq<char>, start: int, k: int) -> bool {
    &&& 0 <= k < ms.len()
    &&& ms[k].0 == file
    &&& forall|j: int| 0 <= j < ms.len() && ms[j].0 == file ==> dist(ms[k].1, start) <= dist(#[trigger] ms[j].1, start)
    &&& forall|j: int| 0 <= j < k && ms[j].0 == file ==> dist(ms[k].1, start) < dist(#[trigger] ms[j].1, start)
}

pub open spec fn has_file(ms: Seq<(Seq<char>, int, int)>, file: Seq<char>) -> bool {
    exists|j: int| 0 <= j < ms.len() && (#[trigger] ms[j]).0 == file
}

// ------------------------------------------------------------------
// Finding
// ------------------------------------------------------------------

proof fn lemma_match_starts_step(s: Seq<char>, q: Seq<char>, from: int)
    requires
        q.len() > 0,
        0 <= from,
    ensures
        find_from(s, q, from) matches Some(i) ==> from <= i && i + q.len() <= s.len()
            && match_starts(s, q, from) == seq![i] + match_starts(s, q, i + q.len()),
        find_from(s, q, from) is None ==> match_starts(s, q, from) == Seq::<int>::empty(),
{
    crate::text::lemma_find_from_props(s, q, from);
}

/// Character starts of the leftmost non-overlapping occurrences of `query` in `content`.
pub fn find_match_starts(content: &Vec<char>, query: &Vec<char>) -> (r: Vec<usize>)
    ensures
        r@.map_values(|x: usize| x as int) == match_starts(content@, query@, 0),
        forall|k: int| 0 <= k < r@.len() ==> r@[k] + query@.len() <= content@.len(),
{
    let mut r: Vec<usize> = Vec::new();
    if query.len() == 0 {
        assert(r@.map_values(|x: usize| x as int) == Seq::<int>::empty());
        return r;
    }
    let mut pos: usize = 0;
    loop
        invariant
            query@.len() > 0,
            pos <= content@.len(),
            r@.map_values(|x: usize| x as int) + match_starts(content@, query@, pos as int)
                == match_starts(content@, query@, 0),
            forall|k: int| 0 <= k < r@.len() ==> r@[k] + query@.len() <= content@.len(),
        decreases content@.len() - pos,
    {
        proof {
            lemma_match_starts_step(content@, query@, pos as int);
        }
        match find_seq_from(content, query, pos) {
            None => {
                assert(r@.map_values(|x: usize| x as int) + Seq::<int>::empty() == r@.map_values(
                    |x: usize| x as int,
                ));
                return r;
            },
            Some(i) => {
                assert(find_from(content@, query@, pos as int) == Some(i as int));
                assert(i + query@.len() <= content@.len());
                assert(i + query.len() <= content.len());
                let ghost before = r@.map_values(|x: usize| x as int);
                r.push(i);
                assert(r@.map_values(|x: usize| x as int) == before.push(i as int));
                assert(before + (seq![i as int] + match_starts(content@, query@, i + query@.len()))
                    == before.push(i as int) + match_starts(content@, query@, i + query@.len()));
                pos = i + query.len();
            },
        }
    }
}

/// `content` with every occurrence of a non-empty `query` replaced by `rep`.
pub(crate) fn replace_text(content: &Vec<char>, query: &Vec<char>, rep: &Vec<char>) -> (out: Vec<char>)
    requires
        query@.len() > 0,
    ensures
        out@ == replace_all(content@, query@, rep@),
{
    let mut out: Vec<char> = Vec::new();
    let mut pos: usize = 0;
    loop
        invariant
            query@.len() > 0,
            pos <= content@.len(),
            out@ + replaced_from(content@, query@, rep@, pos as int) == replace_all(content@, query@, rep@),
        decreases content@.len() - pos,
    {
        proof {
            crate::text::lemma_find_from_props(content@, query@, pos as int);
        }
        match find_seq_from(content, query, pos) {
            None => {
                push_range(&mut out, content, pos, content.len());
                return out;
            },
            Some(i) => {
                assert(find_from(content@, query@, pos as int) == Some(i as int));
                assert(i + query.len() <= content.len());
                let ghost before = out@;
                push_range(&mut out, content, pos, i);
                push_all(&mut out, rep);
                assert(before + (content@.subrange(pos as int, i as int) + rep@ + replaced_from(
                    content@,
                    query@,
                    rep@,
                    i + query@.len(),
                )) == out@ + replaced_from(content@, query@, rep@, i + query@.len()));
                pos = i + query.len();
            },
        }
    }
}

// ------------------------------------------------------------------
// Search state
// ------------------------------------------------------------------

/// One occurrence of the query: the file it is in, and its character range.
#[derive(Clone, Debug, PartialEq, Eq)]
pub struct SearchResult {
    pub file: String,
    pub start: usize,
    pub end: usize,
}

impl SearchResult {
    pub open spec fn model(self) -> (Seq<char>, int, int) {
        (self.file@, self.start as int, self.end as int)
    }

    /// A copy of this result.
    pub fn copied(&self) -> (r: SearchResult)
        ensures
            r.model() == self.model(),
    {
        SearchResult { file: self.file.clone(), start: self.start, end: self.end }
    }
}

pub open spec fn results_view(v: Seq<SearchResult>) -> Seq<(Seq<char>, int, int)> {
    v.map_values(|r: SearchResult| r.model())
}

pub open spec fn sources_view(v: Seq<(String, String)>) -> Seq<(Seq<char>, Seq<char>)> {
    v.map_values(|p: (String, String)| (p.0@, p.1@))
}

/// What `Path::new(a) <= Path::new(b)` gives: the path `a` comes no later than `b` in
/// the order of paths, which compares them component by component.
pub uninterp spec fn path_order_le(a: Seq<char>, b: Seq<char>) -> bool;

/// `<=` on `std::path::Path`. The result is the name `path_order_le` of the two paths;
/// as `Path` orders totally (it implements `Ord`), when `a` does not come first, `b` does.
#[verifier::external_body]
fn path_le(a: &String, b: &String) -> (r: bool)
    ensures
        r == path_order_le(a@, b@),
        !r ==> path_order_le(b@, a@),
{
    std::path::Path::new(a.as_str()) <= std::path::Path::new(b.as_str())
}

/// Where an entry with path `p` goes into `r` (searching back from position `j`): after
/// the last entry whose path comes no later than `p`.
pub open spec fn path_insert_pos(r: Seq<(Seq<char>, Seq<char>)>, p: Seq<char>, j: int) -> int
    decreases j,
{
    if j > 0 && !path_order_le(r[j - 1].0, p) {
        path_insert_pos(r, p, j - 1)
    } else {
        j
    }
}

/// The listing ordered by path: each entry in turn put after the last entry whose path
/// comes no later than its own.
pub open spec fn sorted_by_path(l: Seq<(Seq<char>, Seq<char>)>) -> Seq<(Seq<char>, Seq<char>)>
    decreases l.len(),
{
    if l.len() == 0 {
        Seq::empty()
    } else {
        let r = sorted_by_path(l.drop_last());
        r.insert(path_insert_pos(r, l.last().0, r.len() as int), l.last())
    }
}

/// The workspace listing (path, text) ordered by path, as a search over all files visits
/// it: the same entries, each path no later than the next one's, entries with equal
/// paths kept in their order.
pub fn sort_by_path(listing: &Vec<(String, String)>) -> (r: Vec<(String, String)>)
    ensures
        sources_view(r@) == sorted_by_path(sources_view(listing@)),
        sources_view(r@).to_multiset() == sources_view(listing@).to_multiset(),
        forall|k: int| 0 <= k < r@.len() - 1 ==> path_order_le(#[trigger] r@[k].0@, r@[k + 1].0@),
{
    let ghost lv = sources_view(listing@);
    let mut r: Vec<(String, String)> = Vec::new();
    let mut i: usize = 0;
    assert(sources_view(r@) =~= lv.take(0));
    while i < listing.len()
        invariant
            i <= listing@.len(),
            lv == sources_view(listing@),
            sources_view(r@).to_multiset() == lv.take(i as int).to_multiset(),
            sources_view(r@) == sorted_by_path(lv.take(i as int)),
            forall|k: int| 0 <= k < r@.len() - 1 ==> path_order_le(#[trigger] r@[k].0@, r@[k + 1].0@),
        decreases listing@.len() - i,
    {
        let x = (listing[i].0.clone(), listing[i].1.clone());
        let ghost rv = sources_view(r@);
        let mut j = r.len();
        while j > 0 && !path_le(&r[j - 1].0, &x.0)
            invariant
                j <= r@.len(),
                rv == sources_view(r@),
                j < r@.len() ==> path_order_le(x.0@, r@[j as int].0@),
                path_insert_pos(rv, x.0@, j as int) == path_insert_pos(rv, x.0@, rv.len() as int),
            decreases j,
        {
            assert(rv[j - 1] == (r@[j - 1].0@, r@[j - 1].1@));
            j = j - 1;
        }
        proof {
            if j > 0 {
                assert(rv[j - 1] == (r@[j - 1].0@, r@[j - 1].1@));
            }
            assert(path_insert_pos(rv, x.0@, j as int) == j);
            assert(lv.take(i + 1).drop_last() =~= lv.take(i as int));
            assert(lv.take(i + 1).last() == (x.0@, x.1@));
        }
        let ghost before = r@;
        proof {
            broadcast use vstd::seq_lib::to_multiset_insert;
            broadcast use vstd::seq_lib::group_to_multiset_ensures;
            assert(sources_view(before.insert(j as int, x)) =~= sources_view(before).insert(
                j as int,
                (x.0@, x.1@),
            ));
            assert(lv.take(i + 1) =~= lv.take(i as int).push((x.0@, x.1@)));
        }
        r.insert(j, x);
        proof {
            assert forall|k: int| 0 <= k < r@.len() - 1 implies path_order_le(#[trigger] r@[k].0@, r@[k + 1].0@) by {
                if k + 1 < j {
                    assert(r@[k] == before[k] && r@[k + 1] == before[k + 1]);
                } else if k + 1 == j {
                    assert(r@[k] == before[k] && r@[k + 1] == x);
                } else if k == j {
                    assert(r@[k] == x && r@[k + 1] == before[k]);
                } else {
                    assert(r@[k] == before[k - 1] && r@[k + 1] == before[k]);
                }
            }
        }
        i = i + 1;
    }
    assert(lv.take(listing@.len() as int) == lv);
    r
}

/// The state of the find/replace panel.
pub struct SearchState {
    pub is_active: bool,
    pub find_query: String,
    pub replace_query: String,
    pub search_all_files: bool,
    pub matches: Vec<SearchResult>,
    pub current_match_idx: usize,
    pub has_reached_end: bool,
    pub focus_find: bool,
    pub focus_replace: bool,
    pub query_modified: bool,
}

impl Default for SearchState {
    fn default() -> (r: SearchState)
        ensures
            !r.is_active,
            r.find_query@.len() == 0,
            r.replace_query@.len() == 0,
            !r.search_all_files,
            r.matches@.len() == 0,
            r.current_match_idx == 0,
            !r.has_reached_end,
            !r.focus_find,
            !r.focus_replace,
            !r.query_modified,
    {
        SearchState {
            is_active: false,
            find_query: String::new(),
            replace_query: String::new(),
            search_all_files: false,
            matches: Vec::new(),
            current_match_idx: 0,
            has_reached_end: false,
            focus_find: false,
            focus_replace: false,
            query_modified: false,
        }
    }
}

impl SearchState {
    /// "Replace" may be used: there are matches, the end was not reached, and the query
    /// was searched as it stands.
    pub open spec fn replace_enabled(self) -> bool {
        self.matches@.len() > 0 && !self.has_reached_end && !self.query_modified
    }

    /// "Replace All" may be used: the query is non-empty and was searched as it stands.
    pub open spec fn replace_all_enabled(self) -> bool {
        self.find_query@.len() > 0 && !self.query_modified
    }

    /// The panel settings that searching and navigating never change.
    pub open spec fn same_settings(self, other: SearchState) -> bool {
        &&& self.is_active == other.is_active
        &&& self.find_query@ == other.find_query@
        &&& self.replace_query@ == other.replace_query@
        &&& self.search_all_files == other.search_all_files
        &&& self.focus_find == other.focus_find
        &&& self.focus_replace == other.focus_replace
    }

    /// The index the cursor lands on after a new search: the first match nearest to the
    /// previous current match in the same file, when that is kept and such a match exists;
    /// otherwise the first match.
    pub open spec fn landing_index(
        ms: Seq<(Seq<char>, int, int)>,
        prev: Option<(Seq<char>, int, int)>,
        k: int,
    ) -> bool {
        match prev {
            Some(p) => if has_file(ms, p.0) {
                is_nearest(ms, p.0, p.1, k)
            } else {
                k == 0
            },
            None => k == 0,
        }
    }

    /// `new` is `old` after searching `srcs` (see `search_sources`).
    pub open spec fn searched(
        old: SearchState,
        new: SearchState,
        srcs: Seq<(Seq<char>, Seq<char>)>,
        keep_proximity: bool,
    ) -> bool {
        &&& new.same_settings(old)
        &&& !new.query_modified
        &&& !new.has_reached_end
        &&& old.find_query@.len() == 0 ==> new.matches@.len() == 0 && new.current_match_idx == 0
        &&& old.find_query@.len() > 0 ==> results_view(new.matches@) == all_matches(srcs, old.find_query@)
        &&& old.find_query@.len() > 0 ==> Self::landing_index(
            results_view(new.matches@),
            if keep_proximity && old.current_match_idx < old.matches@.len() {
                Some(old.matches@[old.current_match_idx as int].model())
            } else {
                None
            },
            new.current_match_idx as int,
        )
    }

    /// Searches `sources` (path, text), in order, for the find query, and places the
    /// current match (see `landing_index`). An empty query finds nothing.
    pub fn search_sources(&mut self, sources: &Vec<(String, String)>, keep_proximity: bool)
        ensures
            Self::searched(*old(self), *final(self), sources_view(sources@), keep_proximity),
    {
        self.query_modified = false;
        let prev: Option<SearchResult> = if keep_proximity && self.current_match_idx < self.matches.len() {
            Some(self.matches[self.current_match_idx].copied())
        } else {
            None
        };
        self.matches = Vec::new();
        self.current_match_idx = 0;
        self.has_reached_end = false;
        let query = chars_of(self.find_query.as_str());
        if query.len() == 0 {
            return;
        }
        let qlen = query.len();
        let mut found: Vec<SearchResult> = Vec::new();
        let mut f: usize = 0;
        while f < sources.len()
            invariant
                f <= sources@.len(),
                query@ == self.find_query@,
                qlen == query@.len(),
                results_view(found@) == all_matches(sources_view(sources@).take(f as int), query@),
            decreases sources@.len() - f,
        {
            let content = chars_of(sources[f].1.as_str());
            let starts = find_match_starts(&content, &query);
            let ghost before = results_view(found@);
            let ghost file = sources@[f as int].0@;
            let mut k: usize = 0;
            while k < starts.len()
                invariant
                    k <= starts@.len(),
                    f < sources@.len(),
                    qlen == query@.len(),
                    file == sources@[f as int].0@,
                    forall|x: int| 0 <= x < starts@.len() ==> starts@[x] + query@.len() <= content@.len(),
                    results_view(found@) == before + starts@.map_values(|x: usize| x as int).take(
                        k as int,
                    ).map_values(|i: int| (file, i, i + query@.len())),
                decreases starts@.len() - k,
            {
                let st = starts[k];
                assert(st + qlen <= content.len());
                let ghost prev_found = results_view(found@);
                found.push(SearchResult { file: sources[f].0.clone(), start: st, end: st + qlen });
                proof {
                    let sv = starts@.map_values(|x: usize| x as int);
                    assert(sv.take(k + 1) == sv.take(k as int).push(st as int));
                    assert(sv.take(k + 1).map_values(|i: int| (file, i, i + query@.len())) == sv.take(
                        k as int,
                    ).map_values(|i: int| (file, i, i + query@.len())).push(
                        (file, st as int, st + query@.len()),
                    ));
                    assert(results_view(found@) == prev_found.push(
                        (file, st as int, st + query@.len()),
                    ));
                }
                k = k + 1;
            }
            proof {
                let sv = starts@.map_values(|x: usize| x as int);
                assert(sv.take(starts@.len() as int) == sv);
                let srcs = sources_view(sources@);
                assert(srcs.take(f + 1).drop_last() == srcs.take(f as int));
                assert(srcs.take(f + 1).last() == srcs[f as int]);
                assert(srcs[f as int] == (sources@[f as int].0@, sources@[f as int].1@));
            }
            f = f + 1;
        }
        proof {
            assert(sources_view(sources@).take(sources@.len() as int) == sources_view(sources@));
        }
        self.matches = found;
        if let Some(p) = prev {
            let mut best: Option<usize> = None;
            let mut best_d: usize = 0;
            let mut i: usize = 0;
            let ghost ms = results_view(self.matches@);
            while i < self.matches.len()
                invariant
                    i <= self.matches@.len(),
                    ms == results_view(self.matches@),
                    best matches Some(k) ==> is_nearest(ms.take(i as int), p.file@, p.start as int, k as int)
                        && best_d == dist(ms[k as int].1, p.start as int),
                    best is None ==> !has_file(ms.take(i as int), p.file@),
                decreases self.matches@.len() - i,
            {
                let m = &self.matches[i];
                let ghost pre = ms.take(i as int);
                assert(ms.take(i + 1) == pre.push(ms[i as int]));
                if m.file == p.file {
                    let d = if m.start >= p.start { m.start - p.start } else { p.start - m.start };
                    let better = match best {
                        None => true,
                        Some(_) => d < best_d,
                    };
                    if better {
                        proof {
                            let now = ms.take(i + 1);
                            if best is None {
                                assert forall|j: int| 0 <= j < now.len() && now[j].0 == p.file@ implies dist(
                                    now[i as int].1,
                                    p.start as int,
                                ) <= dist(#[trigger] now[j].1, p.start as int) by {
                                    if j < i {
                                        assert(pre[j] == now[j]);
                                        assert(has_file(pre, p.file@));
                                    }
                                }
                            }
                        }
                        best = Some(i);
                        best_d = d;
                    } else {
                        proof {
                            let now = ms.take(i + 1);
                            let k = best.unwrap() as int;
                            assert(pre[k] == now[k]);
                            assert forall|j: int| 0 <= j < now.len() && now[j].0 == p.file@ implies dist(
                                now[k].1,
                                p.start as int,
                            ) <= dist(#[trigger] now[j].1, p.start as int) by {
                                if j < i {
                                    assert(pre[j] == now[j]);
                                }
                            }
                            assert forall|j: int| 0 <= j < k && now[j].0 == p.file@ implies dist(
                                now[k].1,
                                p.start as int,
                            ) < dist(#[trigger] now[j].1, p.start as int) by {
                                assert(pre[j] == now[j]);
                            }
                        }
                    }
                } else {
                    proof {
                        let now = ms.take(i + 1);
                        if best is Some {
                            let k = best.unwrap() as int;
                            assert(pre[k] == now[k]);
                            assert forall|j: int| 0 <= j < now.len() && now[j].0 == p.file@ implies dist(
                                now[k].1,
                                p.start as int,
                            ) <= dist(#[trigger] now[j].1, p.start as int) by {
                                if j < i {
                                    assert(pre[j] == now[j]);
                                }
                            }
                            assert forall|j: int| 0 <= j < k && now[j].0 == p.file@ implies dist(
                                now[k].1,
                                p.start as int,
                            ) < dist(#[trigger] now[j].1, p.start as int) by {
                                assert(pre[j] == now[j]);
                            }
                        } else {
                            if has_file(now, p.file@) {
                                let j = choose|j: int| 0 <= j < now.len() && (#[trigger] now[j]).0 == p.file@;
                                if j < i {
                                    assert(pre[j] == now[j]);
                                }
                            }
                        }
                    }
                }
                i = i + 1;
            }
            proof {
                assert(ms.take(ms.len() as int) == ms);
            }
            if let Some(k) = best {
                self.current_match_idx = k;
            }
        }
    }

    /// Whether "Replace" is enabled: there are matches, the end was not reached, and the
    /// query was searched as it stands.
    pub fn can_replace(&self) -> (b: bool)
        ensures
            b == self.replace_enabled(),
    {
        self.matches.len() > 0 && !self.has_reached_end && !self.query_modified
    }

    /// Whether "Replace All" is enabled: the query is non-empty and was searched as it stands.
    pub fn can_replace_all(&self) -> (b: bool)
        ensures
            b == self.replace_all_enabled(),
    {
        !self.find_query.as_str().is_empty() && !self.query_modified
    }

    /// Whether the previous/next buttons are enabled.
    pub fn can_navigate(&self) -> (b: bool)
        ensures
            b == (self.matches@.len() > 0 && !self.query_modified),
    {
        self.matches.len() > 0 && !self.query_modified
    }

    /// The find query was edited: the results no longer describe it, so they are dropped
    /// and replacing is locked until the query is searched again.
    pub fn on_query_edited(&mut self)
        ensures
            final(self).same_settings(*old(self)),
            final(self).query_modified,
            final(self).matches@.len() == 0,
            !final(self).has_reached_end,
            final(self).current_match_idx == old(self).current_match_idx,
    {
        self.query_modified = true;
        self.matches = Vec::new();
        self.has_reached_end = false;
    }

    /// Closes the panel and drops the results.
    pub fn close_panel(&mut self)
        ensures
            !final(self).is_active,
            final(self).matches@.len() == 0,
            final(self).find_query@ == old(self).find_query@,
            final(self).replace_query@ == old(self).replace_query@,
            final(self).search_all_files == old(self).search_all_files,
            final(self).current_match_idx == old(self).current_match_idx,
            final(self).has_reached_end == old(self).has_reached_end,
            final(self).query_modified == old(self).query_modified,
            final(self).focus_find == old(self).focus_find,
            final(self).focus_replace == old(self).focus_replace,
    {
        self.is_active = false;
        self.matches = Vec::new();
    }

    /// Moves to the next match, from the last back to the first.
    pub fn next_match(&mut self)
        requires
            old(self).matches@.len() > 0,
            old(self).current_match_idx < usize::MAX,
        ensures
            final(self).same_settings(*old(self)),
            final(self).matches@ == old(self).matches@,
            final(self).query_modified == old(self).query_modified,
            !final(self).has_reached_end,
            final(self).current_match_idx as int == next_index(
                old(self).current_match_idx as int,
                old(self).matches@.len() as int,
            ),
    {
        self.has_reached_end = false;
        self.current_match_idx = (self.current_match_idx + 1) % self.matches.len();
    }

    /// Moves to the previous match, from the first back to the last.
    pub fn prev_match(&mut self)
        requires
            old(self).matches@.len() > 0,
        ensures
            final(self).same_settings(*old(self)),
            final(self).matches@ == old(self).matches@,
            final(self).query_modified == old(self).query_modified,
            !final(self).has_reached_end,
            final(self).current_match_idx as int == prev_index(
                old(self).current_match_idx as int,
                old(self).matches@.len() as int,
            ),
    {
        self.has_reached_end = false;
        self.current_match_idx = if self.current_match_idx == 0 {
            self.matches.len() - 1
        } else {
            self.current_match_idx - 1
        };
    }

    /// The match to show: the current index is first brought within the results.
    pub fn current_target(&mut self) -> (r: Option<SearchResult>)
        ensures
            final(self).same_settings(*old(self)),
            final(self).matches@ == old(self).matches@,
            final(self).query_modified == old(self).query_modified,
            final(self).has_reached_end == old(self).has_reached_end,
            old(self).matches@.len() == 0 ==> r is None && final(self).current_match_idx
                == old(self).current_match_idx,
            old(self).matches@.len() > 0 ==> final(self).current_match_idx as int == (
                if old(self).current_match_idx < old(self).matches@.len() {
                    old(self).current_match_idx as int
                } else {
                    old(self).matches@.len() - 1
                }),
            old(self).matches@.len() > 0 ==> (r matches Some(m) && m.model()
                == old(self).matches@[final(self).current_match_idx as int].model()),
    {
        if self.matches.len() == 0 {
            return None;
        }
        if self.current_match_idx >= self.matches.len() {
            self.current_match_idx = self.matches.len() - 1;
        }
        Some(self.matches[self.current_match_idx].copied())
    }

    /// After the match at `order` (`replaced`) was replaced by `inserted_len` characters
    /// and the search redone: every match from `order` on that starts inside the inserted
    /// text of the same file is skipped, so nothing of the replacement is replaced again.
    /// Lands on the first match after them and returns it; when there is none, marks the
    /// end as reached and returns `None`.
    pub fn advance_after_replace(
        &mut self,
        order: usize,
        replaced: &SearchResult,
        inserted_len: usize,
    ) -> (r: Option<SearchResult>)
        ensures
            final(self).same_settings(*old(self)),
            final(self).matches@ == old(self).matches@,
            final(self).query_modified == old(self).query_modified,
            ({
                let ms = results_view(old(self).matches@);
                let t = advance_target(ms, order as int, replaced.model(), inserted_len as int);
                &&& t < ms.len() ==> final(self).current_match_idx == t && (r matches Some(m)
                    && m.model() == ms[t]) && final(self).has_reached_end == old(self).has_reached_end
                &&& t >= ms.len() ==> r is None && final(self).has_reached_end
                    && final(self).current_match_idx == old(self).current_match_idx
            }),
    {
        let ghost ms = results_view(self.matches@);
        let ghost rm = replaced.model();
        let mut target = order;
        while target < self.matches.len() && self.matches[target].file == replaced.file
            && self.matches[target].start >= replaced.start && self.matches[target].start
            - replaced.start < inserted_len
            invariant
                order <= target,
                ms == results_view(self.matches@),
                rm == replaced.model(),
                advance_target(ms, target as int, rm, inserted_len as int) == advance_target(
                    ms,
                    order as int,
                    rm,
                    inserted_len as int,
                ),
            decreases self.matches@.len() - target,
        {
            assert(ms[target as int] == self.matches@[target as int].model());
            target = target + 1;
        }
        proof {
            if target < self.matches@.len() {
                assert(ms[target as int] == self.matches@[target as int].model());
            }
        }
        if target < self.matches.len() {
            self.current_match_idx = target;
            Some(self.matches[target].copied())
        } else {
            self.has_reached_end = true;
            None
        }
    }
}

/// The index after `i` among `n`, wrapping to the first.
pub open spec fn next_index(i: int, n: int) -> int {
    (i + 1) % n
}

/// The index before `i` among `n`, wrapping to the last.
pub open spec fn prev_index(i: int, n: int) -> int {
    if i == 0 {
        n - 1
    } else {
        i - 1
    }
}

/// The match `m` starts inside the text inserted at `replaced`'s start, in the same file.
pub open spec fn inside_insertion(
    m: (Seq<char>, int, int),
    replaced: (Seq<char>, int, int),
    inserted_len: int,
) -> bool {
    m.0 == replaced.0 && replaced.1 <= m.1 < replaced.1 + inserted_len
}

/// Where the cursor goes after replacing the match at `order`: the first index from
/// `order` on whose match does not start inside the inserted text of the same file.
pub open spec fn advance_target(
    ms: Seq<(Seq<char>, int, int)>,
    order: int,
    replaced: (Seq<char>, int, int),
    inserted_len: int,
) -> int
    decreases ms.len() - order,
{
    if 0 <= order < ms.len() && inside_insertion(ms[order], replaced, inserted_len) {
        advance_target(ms, order + 1, replaced, inserted_len)
    } else {
        order
    }
}


// ------------------------------------------------------------------
// Laws
// ------------------------------------------------------------------

proof fn lemma_match_starts_from(s: Seq<char>, q: Seq<char>, from: int)
    requires
        q.len() > 0,
        0 <= from,
    ensures
        forall|k: int| 0 <= k < match_starts(s, q, from).len() ==> from <= #[trigger] match_starts(s, q, from)[k]
            && occurs_at(s, q, match_starts(s, q, from)[k]),
        forall|k: int|
            0 <= k < match_starts(s, q, from).len() - 1 ==> #[trigger] match_starts(s, q, from)[k]
                + q.len() <= match_starts(s, q, from)[k + 1],
    decreases s.len() + 1 - from,
{
    crate::text::lemma_find_from_props(s, q, from);
    if let Some(i) = find_from(s, q, from) {
        lemma_match_starts_from(s, q, i + q.len());
        let rest = match_starts(s, q, i + q.len());
        let all = match_starts(s, q, from);
        assert(all == seq![i] + rest);
        assert forall|k: int| 0 <= k < all.len() implies from <= #[trigger] all[k] && occurs_at(s, q, all[k]) by {
            if k > 0 {
                assert(all[k] == rest[k - 1]);
            }
        }
        assert forall|k: int| 0 <= k < all.len() - 1 implies #[trigger] all[k] + q.len() <= all[k + 1] by {
            assert(all[k + 1] == rest[k]);
            if k > 0 {
                assert(all[k] == rest[k - 1]);
            }
        }
    }
}

/// Every match the search reports is an occurrence of the query, and they come in
/// increasing order without overlapping.
pub proof fn lemma_matches_are_disjoint_occurrences(s: Seq<char>, q: Seq<char>)
    requires
        q.len() > 0,
    ensures
        forall|k: int| 0 <= k < match_starts(s, q, 0).len() ==> occurs_at(s, q, #[trigger] match_starts(s, q, 0)[k]),
        forall|k: int|
            0 <= k < match_starts(s, q, 0).len() - 1 ==> #[trigger] match_starts(s, q, 0)[k] + q.len()
                <= match_starts(s, q, 0)[k + 1],
{
    lemma_match_starts_from(s, q, 0);
}

proof fn lemma_replaced_from_same(s: Seq<char>, q: Seq<char>, from: int)
    requires
        q.len() > 0,
        0 <= from <= s.len(),
    ensures
        replaced_from(s, q, q, from) == s.subrange(from, s.len() as int),
    decreases s.len() + 1 - from,
{
    crate::text::lemma_find_from_props(s, q, from);
    if let Some(i) = find_from(s, q, from) {
        lemma_replaced_from_same(s, q, i + q.len());
        assert(s.subrange(i, i + q.len()) == q);
        assert(s.subrange(from, i) + q + s.subrange(i + q.len(), s.len() as int) == s.subrange(
            from,
            s.len() as int,
        ));
    }
}

/// Replacing every occurrence of the query by the query itself leaves the text as it was.
pub proof fn lemma_replace_all_same_is_identity(s: Seq<char>, q: Seq<char>)
    requires
        q.len() > 0,
    ensures
        replace_all(s, q, q) == s,
{
    lemma_replaced_from_same(s, q, 0);
    assert(s.subrange(0, s.len() as int) == s);
}

#[verifier::spinoff_prover]
proof fn lemma_replaced_from_len(s: Seq<char>, q: Seq<char>, r: Seq<char>, from: int)
    requires
        q.len() > 0,
        0 <= from <= s.len(),
    ensures
        replaced_from(s, q, r, from).len() == (s.len() - from) + match_starts(s, q, from).len() * (
        r.len() - q.len()),
    decreases s.len() + 1 - from,
{
    crate::text::lemma_find_from_props(s, q, from);
    if let Some(i) = find_from(s, q, from) {
        lemma_replaced_from_len(s, q, r, i + q.len());
        let n = match_starts(s, q, i + q.len()).len();
        let d = r.len() - q.len();
        assert((n + 1) * d == n * d + d) by (nonlinear_arith);
    }
}

/// Replacing all `n` occurrences of `q` by `r` changes the length by `n * (|r| - |q|)`.
pub proof fn lemma_replace_all_len(s: Seq<char>, q: Seq<char>, r: Seq<char>)
    requires
        q.len() > 0,
    ensures
        replace_all(s, q, r).len() == s.len() + match_starts(s, q, 0).len() * (r.len() - q.len()),
{
    lemma_replaced_from_len(s, q, r, 0);
}

/// Stepping to the next match and back to the previous one (or the other way round)
/// returns to where the cursor was.
pub proof fn lemma_next_prev_inverse(i: int, n: int)
    requires
        0 <= i < n,
    ensures
        prev_index(next_index(i, n), n) == i,
        next_index(prev_index(i, n), n) == i,
        0 <= next_index(i, n) < n,
        0 <= prev_index(i, n) < n,
{
    if i + 1 < n {
        assert((i + 1) % n == i + 1) by (nonlinear_arith)
            requires
                0 <= i + 1 < n,
        ;
    } else {
        assert((i + 1) % n == 0) by (nonlinear_arith)
            requires
                i + 1 == n,
                n > 0,
        ;
    }
    if i == 0 {
        assert(n % n == 0) by (nonlinear_arith)
            requires
                n > 0,
        ;
    } else {
        assert(i % n == i) by (nonlinear_arith)
            requires
                0 < i < n,
        ;
    }
}

/// Editing the find query locks both replace actions until the query is searched again;
/// a search unlocks "Replace" exactly when it found something, and "Replace All" when the
/// query is not empty.
pub proof fn lemma_query_edit_locks_replace(
    edited: SearchState,
    before: SearchState,
    after: SearchState,
    srcs: Seq<(Seq<char>, Seq<char>)>,
    keep: bool,
)
    requires
        edited.query_modified,
        SearchState::searched(before, after, srcs, keep),
    ensures
        !edited.replace_enabled(),
        !edited.replace_all_enabled(),
        after.replace_enabled() == (after.matches@.len() > 0),
        after.replace_all_enabled() == (before.find_query@.len() > 0),
{
}

/// After replacing, the cursor skips every match from the replaced position on that
/// starts inside the inserted text, and lands on the first one that does not.
pub proof fn lemma_advance_skips_inserted_text(
    ms: Seq<(Seq<char>, int, int)>,
    order: int,
    replaced: (Seq<char>, int, int),
    inserted_len: int,
)
    requires
        0 <= order,
    ensures
        order <= advance_target(ms, order, replaced, inserted_len),
        order <= ms.len() ==> advance_target(ms, order, replaced, inserted_len) <= ms.len(),
        forall|k: int|
            order <= k < advance_target(ms, order, replaced, inserted_len) ==> inside_insertion(
                #[trigger] ms[k],
                replaced,
                inserted_len,
            ),
        advance_target(ms, order, replaced, inserted_len) < ms.len() ==> !inside_insertion(
            ms[advance_target(ms, order, replaced, inserted_len)],
            replaced,
            inserted_len,
        ),
    decreases ms.len() - order,
{
    if 0 <= order < ms.len() && inside_insertion(ms[order], replaced, inserted_len) {
        lemma_advance_skips_inserted_text(ms, order + 1, replaced, inserted_len);
    }
}

/// Searching one text: when the match at the replaced position starts at or after the
/// replaced match, the match the cursor lands on starts at or after the end of the
/// inserted text, so no part of the replacement is replaced again (replacing `cat` by
/// `catcat` in `cat` reaches the end).
pub proof fn lemma_advance_lands_after_insertion(
    file: Seq<char>,
    text: Seq<char>,
    q: Seq<char>,
    order: int,
    replaced: (Seq<char>, int, int),
    inserted_len: int,
)
    requires
        q.len() > 0,
        replaced.0 == file,
        0 <= order < file_matches(file, text, q).len(),
        file_matches(file, text, q)[order].1 >= replaced.1,
    ensures
        ({
            let found = file_matches(file, text, q);
            let t = advance_target(found, order, replaced, inserted_len);
            t < found.len() ==> found[t].1 >= replaced.1 + inserted_len
        }),
{
    let found = file_matches(file, text, q);
    let ms = match_starts(text, q, 0);
    lemma_match_starts_from(text, q, 0);
    lemma_advance_skips_inserted_text(found, order, replaced, inserted_len);
    let t = advance_target(found, order, replaced, inserted_len);
    if t < found.len() {
        assert(found[order] == (file, ms[order], ms[order] + q.len()));
        assert(found[t] == (file, ms[t], ms[t] + q.len()));
        lemma_starts_increase(ms, q.len() as int, order, t);
    }
}

proof fn lemma_starts_increase(ms: Seq<int>, w: int, i: int, j: int)
    requires
        0 <= i <= j < ms.len(),
        w > 0,
        forall|k: int| 0 <= k < ms.len() - 1 ==> #[trigger] ms[k] + w <= ms[k + 1],
    ensures
        ms[i] <= ms[j],
    decreases j - i,
{
    if i < j {
        lemma_starts_increase(ms, w, i, j - 1);
        assert(ms[j - 1] + w <= ms[j]);
    }
}

} // verus!
