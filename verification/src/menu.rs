//! The autocomplete popup: ranking the suggestions, moving the selection, and inserting
//! the chosen template.
use vstd::prelude::*;
use crate::config::AutocompleteEntry;
use crate::order::{seq_lt, sort_dedup, strictly_sorted, strings_view, vec_lt};
use crate::search::{replace_all, replace_text};
use crate::text::{
    chars_of, contains_seq, find_from, find_seq_from, lowercase_of, push_all, push_range, string_of,
    to_lowercase, vec_eq_str,
};

verus! {

/// One line of the popup: what is shown, what is inserted, and the kind of suggestion.
#[derive(Clone, Debug, PartialEq, Eq)]
pub struct MenuItem {
    pub display: String,
    pub insert: String,
    pub kind: String,
}

pub open spec fn item_view(m: MenuItem) -> (Seq<char>, Seq<char>, Seq<char>) {
    (m.display@, m.insert@, m.kind@)
}

pub open spec fn items_view(v: Seq<MenuItem>) -> Seq<(Seq<char>, Seq<char>, Seq<char>)> {
    v.map_values(|m: MenuItem| item_view(m))
}

impl MenuItem {
    pub fn copied(&self) -> (r: MenuItem)
        ensures
            item_view(r) == item_view(*self),
    {
        MenuItem { display: self.display.clone(), insert: self.insert.clone(), kind: self.kind.clone() }
    }
}

/// The most suggestions the popup shows.
pub const MAX_SUGGESTIONS: usize = 12;

/// A suggestion with its rank: a tier (lower is better) and the text it is ordered by
/// within its tier.
pub struct Ranked {
    pub item: MenuItem,
    pub tier: u8,
    pub key: Vec<char>,
}

pub type RankedView = ((Seq<char>, Seq<char>, Seq<char>), int, Seq<char>);

pub open spec fn ranked_view(r: Ranked) -> RankedView {
    (item_view(r.item), r.tier as int, r.key@)
}

pub open spec fn rankeds_view(v: Seq<Ranked>) -> Seq<RankedView> {
    v.map_values(|r: Ranked| ranked_view(r))
}

/// `x` ranks strictly before `y`.
pub open spec fn rank_lt(x: RankedView, y: RankedView) -> bool {
    x.1 < y.1 || (x.1 == y.1 && seq_lt(x.2, y.2))
}

/// Where `e` goes in `s`: before the first element it ranks strictly before (so after
/// every element that ranks no later than it).
pub open spec fn insert_pos(s: Seq<RankedView>, e: RankedView, k: int) -> int
    decreases s.len() - k,
{
    if k < 0 || k >= s.len() {
        s.len() as int
    } else if rank_lt(e, s[k]) {
        k
    } else {
        insert_pos(s, e, k + 1)
    }
}

/// The stable sort of `s` by rank: elements of equal rank keep their order.
pub open spec fn stable_sort(s: Seq<RankedView>) -> Seq<RankedView>
    decreases s.len(),
{
    if s.len() == 0 {
        Seq::empty()
    } else {
        let r = stable_sort(s.drop_last());
        r.insert(insert_pos(r, s.last(), 0), s.last())
    }
}

/// Drops each element whose shown text equals that of the element kept just before it.
pub open spec fn dedup_display(s: Seq<(Seq<char>, Seq<char>, Seq<char>)>) -> Seq<(Seq<char>, Seq<char>, Seq<char>)>
    decreases s.len(),
{
    if s.len() == 0 {
        Seq::empty()
    } else {
        let r = dedup_display(s.drop_last());
        if r.len() > 0 && r.last().0 == s.last().0 {
            r
        } else {
            r.push(s.last())
        }
    }
}

/// The popup contents for ranked candidates: sorted by rank, neighbours with the same
/// shown text merged, at most `MAX_SUGGESTIONS`.
pub open spec fn menu_items(cands: Seq<RankedView>) -> Seq<(Seq<char>, Seq<char>, Seq<char>)> {
    let d = dedup_display(stable_sort(cands).map_values(|r: RankedView| r.0));
    if d.len() <= 12 {
        d
    } else {
        d.take(12)
    }
}

proof fn lemma_insert_pos_bounds(s: Seq<RankedView>, e: RankedView, k: int)
    requires
        0 <= k <= s.len(),
    ensures
        k <= insert_pos(s, e, k) <= s.len(),
    decreases s.len() - k,
{
    if k < s.len() && !rank_lt(e, s[k]) {
        lemma_insert_pos_bounds(s, e, k + 1);
    }
}

fn ranked_lt(x: &Ranked, y: &Ranked) -> (b: bool)
    ensures
        b == rank_lt(ranked_view(*x), ranked_view(*y)),
{
    x.tier < y.tier || (x.tier == y.tier && vec_lt(&x.key, &y.key))
}

/// Orders the candidates (see `menu_items`).
pub fn rank_items(cands: Vec<Ranked>) -> (r: Vec<MenuItem>)
    ensures
        items_view(r@) == menu_items(rankeds_view(cands@)),
{
    let ghost cv = rankeds_view(cands@);
    let ghost n = cands@.len();
    // Reverse the candidates, so that popping hands them out in their original order.
    let mut rest = cands;
    let mut rev: Vec<Ranked> = Vec::new();
    while rest.len() > 0
        invariant
            rest@.len() + rev@.len() == n,
            cv.len() == n,
            forall|k: int| 0 <= k < rest@.len() ==> ranked_view(#[trigger] rest@[k]) == cv[k],
            forall|k: int| 0 <= k < rev@.len() ==> ranked_view(#[trigger] rev@[k]) == cv[n - 1 - k],
        decreases rest@.len(),
    {
        let x = rest.pop().unwrap();
        rev.push(x);
    }
    let mut sorted: Vec<Ranked> = Vec::new();
    while rev.len() > 0
        invariant
            rev@.len() <= n,
            cv.len() == n,
            forall|k: int| 0 <= k < rev@.len() ==> ranked_view(#[trigger] rev@[k]) == cv[n - 1 - k],
            rankeds_view(sorted@) == stable_sort(cv.take(n - rev@.len())),
        decreases rev@.len(),
    {
        let ghost i = n - rev@.len();
        let x = rev.pop().unwrap();
        let ghost xv = ranked_view(x);
        assert(xv == cv[i]);
        let ghost sv = rankeds_view(sorted@);
        let mut p: usize = 0;
        while p < sorted.len() && !ranked_lt(&x, &sorted[p])
            invariant
                p <= sorted@.len(),
                sv == rankeds_view(sorted@),
                xv == ranked_view(x),
                insert_pos(sv, xv, 0) == insert_pos(sv, xv, p as int),
            decreases sorted@.len() - p,
        {
            p = p + 1;
        }
        proof {
            assert(cv.take(i + 1).drop_last() == cv.take(i));
            assert(cv.take(i + 1).last() == xv);
        }
        sorted.insert(p, x);
        proof {
            assert(rankeds_view(sorted@) == sv.insert(p as int, xv));
        }
    }
    assert(cv.take(n as int) == cv);
    // Merge neighbours with the same shown text.
    let ghost mv = stable_sort(cv).map_values(|r: RankedView| r.0);
    let mut out: Vec<MenuItem> = Vec::new();
    let mut k: usize = 0;
    while k < sorted.len()
        invariant
            k <= sorted@.len(),
            mv == rankeds_view(sorted@).map_values(|r: RankedView| r.0),
            items_view(out@) == dedup_display(mv.take(k as int)),
        decreases sorted@.len() - k,
    {
        assert(mv.take(k + 1).drop_last() == mv.take(k as int));
        assert(mv.take(k + 1).last() == item_view(sorted@[k as int].item));
        let n_out = out.len();
        let same = n_out > 0 && out[n_out - 1].display == sorted[k].item.display;
        if !same {
            let it = sorted[k].item.copied();
            let ghost before = items_view(out@);
            out.push(it);
            assert(items_view(out@) == before.push(item_view(it)));
        }
        k = k + 1;
    }
    assert(mv.take(sorted@.len() as int) == mv);
    let ghost d = items_view(out@);
    out.truncate(MAX_SUGGESTIONS);
    proof {
        if d.len() > 12 {
            assert(items_view(out@) == d.take(12));
        } else {
            assert(items_view(out@) == d);
        }
    }
    out
}

// ------------------------------------------------------------------
// Candidates
// ------------------------------------------------------------------

/// What `Path::new(path).file_name()` returns: the final component of the path, `None`
/// when there is none (for instance when the path ends in `..`).
pub uninterp spec fn path_file_name(path: Seq<char>) -> Option<Seq<char>>;

/// The file name of a path, empty when it has none.
pub open spec fn file_name_of(path: Seq<char>) -> Seq<char> {
    match path_file_name(path) {
        Some(n) => n,
        None => Seq::empty(),
    }
}

/// `s` without its leading `\` and `@` characters.
pub open spec fn strip_triggers(s: Seq<char>) -> Seq<char>
    decreases s.len(),
{
    if s.len() > 0 && (s[0] == '\\' || s[0] == '@') {
        strip_triggers(s.drop_first())
    } else {
        s
    }
}

/// The candidate for a citation key or label: kept when its lowercased text contains the
/// lowercased prefix; ranked first when it starts with it.
pub open spec fn key_candidates(keys: Seq<Seq<char>>, prefix: Seq<char>, kind: Seq<char>) -> Seq<RankedView>
    decreases keys.len(),
{
    if keys.len() == 0 {
        Seq::empty()
    } else {
        let rest = key_candidates(keys.drop_last(), prefix, kind);
        let k = keys.last();
        let lk = lowercase_of(k);
        let term = lowercase_of(prefix);
        if contains_seq(lk, term) {
            rest.push(((k, k, kind), if term.is_prefix_of(lk) { 0int } else { 1int }, lk))
        } else {
            rest
        }
    }
}

/// The candidate for each file path: first when its lowercased file name starts with the
/// lowercased prefix, then when that name contains it, then the rest; within a tier by
/// the lowercased path.
pub open spec fn file_candidates(files: Seq<Seq<char>>, prefix: Seq<char>) -> Seq<RankedView>
    decreases files.len(),
{
    if files.len() == 0 {
        Seq::empty()
    } else {
        let rest = file_candidates(files.drop_last(), prefix);
        let f = files.last();
        let name = lowercase_of(file_name_of(f));
        let term = lowercase_of(prefix);
        rest.push(
            (
                (f, f, "file"@),
                if term.is_prefix_of(name) {
                    0int
                } else if contains_seq(name, term) {
                    1int
                } else {
                    2int
                },
                lowercase_of(f),
            ),
        )
    }
}

/// The candidate for each template whose trigger uses the same symbol (`@` or not) as the
/// prefix and whose lowercased name (trigger without its leading `\`/`@`) contains the
/// lowercased name typed; first when the name starts with it; ordered by name.
pub open spec fn macro_candidates(cmds: Seq<(Seq<char>, Seq<char>)>, prefix: Seq<char>) -> Seq<RankedView>
    decreases cmds.len(),
{
    if cmds.len() == 0 {
        Seq::empty()
    } else {
        let rest = macro_candidates(cmds.drop_last(), prefix);
        let c = cmds.last();
        let is_at = prefix.len() > 0 && prefix[0] == '@';
        let c_is_at = c.0.len() > 0 && c.0[0] == '@';
        let term = lowercase_of(strip_triggers(prefix));
        let name = lowercase_of(strip_triggers(c.0));
        if is_at == c_is_at && contains_seq(name, term) {
            rest.push(((c.0, c.1, "macro"@), if term.is_prefix_of(name) { 0int } else { 1int }, name))
        } else {
            rest
        }
    }
}

pub open spec fn entries_view(v: Seq<AutocompleteEntry>) -> Seq<(Seq<char>, Seq<char>)> {
    v.map_values(|e: AutocompleteEntry| (e.trigger@, e.insert@))
}

fn lower_chars(s: &str) -> (v: Vec<char>)
    ensures
        v@ == lowercase_of(s@),
{
    let l = to_lowercase(s);
    chars_of(l.as_str())
}

fn contains_vec(hay: &Vec<char>, pat: &Vec<char>) -> (b: bool)
    ensures
        b == contains_seq(hay@, pat@),
{
    find_seq_from(hay, pat, 0).is_some()
}

fn prefix_of(pat: &Vec<char>, hay: &Vec<char>) -> (b: bool)
    ensures
        b == pat@.is_prefix_of(hay@),
{
    let r = crate::text::starts_with_at(hay, 0, pat);
    assert(hay@.skip(0) == hay@);
    r
}

/// Strips the leading `\` and `@` characters.
fn strip_triggers_exec(s: &str) -> (r: String)
    ensures
        r@ == strip_triggers(s@),
{
    let v = chars_of(s);
    let mut i: usize = 0;
    assert(v@.skip(0) == v@);
    while i < v.len() && (v[i] == '\\' || v[i] == '@')
        invariant
            i <= v@.len(),
            strip_triggers(v@.skip(i as int)) == strip_triggers(v@),
        decreases v@.len() - i,
    {
        assert(v@.skip(i as int).drop_first() == v@.skip(i + 1));
        i = i + 1;
    }
    let mut out: Vec<char> = Vec::new();
    push_range(&mut out, &v, i, v.len());
    assert(v@.subrange(i as int, v@.len() as int) == v@.skip(i as int));
    string_of(&out)
}

/// `std::path::Path::file_name`: the final component of `path`. The result is the name
/// `path_file_name` of the path; this library does not restate how `std` splits paths.
#[verifier::external_body]
fn file_name(path: &str) -> (r: Option<String>)
    ensures
        match (r, path_file_name(path@)) {
            (Some(n), Some(m)) => n@ == m,
            (None, None) => true,
            _ => false,
        },
{
    match std::path::Path::new(path).file_name() {
        Some(n) => Some(n.to_string_lossy().to_string()),
        None => None,
    }
}

fn file_name_exec(path: &str) -> (r: String)
    ensures
        r@ == file_name_of(path@),
{
    match file_name(path) {
        Some(n) => n,
        None => String::new(),
    }
}

fn text_of(s: &str) -> (r: String)
    ensures
        r@ == s@,
{
    let v = chars_of(s);
    string_of(&v)
}

/// Candidates for citation keys or labels (see `key_candidates`).
pub fn key_candidates_exec(keys: &Vec<String>, prefix: &str, kind: &str) -> (r: Vec<Ranked>)
    ensures
        rankeds_view(r@) == key_candidates(strings_view(keys@), prefix@, kind@),
{
    let term = lower_chars(prefix);
    let ghost kv = strings_view(keys@);
    let mut r: Vec<Ranked> = Vec::new();
    let mut i: usize = 0;
    while i < keys.len()
        invariant
            i <= keys@.len(),
            kv == strings_view(keys@),
            term@ == lowercase_of(prefix@),
            rankeds_view(r@) == key_candidates(kv.take(i as int), prefix@, kind@),
        decreases keys@.len() - i,
    {
        assert(kv.take(i + 1).drop_last() == kv.take(i as int));
        assert(kv.take(i + 1).last() == keys@[i as int]@);
        let lk = lower_chars(keys[i].as_str());
        if contains_vec(&lk, &term) {
            let tier: u8 = if prefix_of(&term, &lk) { 0 } else { 1 };
            let item = MenuItem { display: keys[i].clone(), insert: keys[i].clone(), kind: text_of(kind) };
            let ghost before = rankeds_view(r@);
            let c = Ranked { item, tier, key: lk };
            r.push(c);
            assert(rankeds_view(r@) == before.push(ranked_view(c)));
        }
        i = i + 1;
    }
    assert(kv.take(keys@.len() as int) == kv);
    r
}

/// Candidates for file paths (see `file_candidates`).
pub fn file_candidates_exec(files: &Vec<String>, prefix: &str) -> (r: Vec<Ranked>)
    ensures
        rankeds_view(r@) == file_candidates(strings_view(files@), prefix@),
{
    let term = lower_chars(prefix);
    let ghost fv = strings_view(files@);
    let mut r: Vec<Ranked> = Vec::new();
    let mut i: usize = 0;
    while i < files.len()
        invariant
            i <= files@.len(),
            fv == strings_view(files@),
            term@ == lowercase_of(prefix@),
            rankeds_view(r@) == file_candidates(fv.take(i as int), prefix@),
        decreases files@.len() - i,
    {
        assert(fv.take(i + 1).drop_last() == fv.take(i as int));
        assert(fv.take(i + 1).last() == files@[i as int]@);
        let fname = file_name_exec(files[i].as_str());
        let name = lower_chars(fname.as_str());
        let tier: u8 = if prefix_of(&term, &name) {
            0
        } else if contains_vec(&name, &term) {
            1
        } else {
            2
        };
        let key = lower_chars(files[i].as_str());
        let item = MenuItem { display: files[i].clone(), insert: files[i].clone(), kind: text_of("file") };
        let ghost before = rankeds_view(r@);
        let c = Ranked { item, tier, key };
        r.push(c);
        assert(rankeds_view(r@) == before.push(ranked_view(c)));
        i = i + 1;
    }
    assert(fv.take(files@.len() as int) == fv);
    r
}

fn starts_with_at_sign(s: &str) -> (b: bool)
    ensures
        b == (s@.len() > 0 && s@[0] == '@'),
{
    let v = chars_of(s);
    v.len() > 0 && v[0] == '@'
}

/// Candidates for templates (see `macro_candidates`).
pub fn macro_candidates_exec(cmds: &Vec<AutocompleteEntry>, prefix: &str) -> (r: Vec<Ranked>)
    ensures
        rankeds_view(r@) == macro_candidates(entries_view(cmds@), prefix@),
        forall|k: int| 0 <= k < r@.len() ==> at_sign_first((#[trigger] r@[k]).item.display@)
            == at_sign_first(prefix@),
{
    let is_at = starts_with_at_sign(prefix);
    let stripped = strip_triggers_exec(prefix);
    let term = lower_chars(stripped.as_str());
    let ghost cv = entries_view(cmds@);
    let mut r: Vec<Ranked> = Vec::new();
    let mut i: usize = 0;
    while i < cmds.len()
        invariant
            i <= cmds@.len(),
            cv == entries_view(cmds@),
            is_at == (prefix@.len() > 0 && prefix@[0] == '@'),
            term@ == lowercase_of(strip_triggers(prefix@)),
            rankeds_view(r@) == macro_candidates(cv.take(i as int), prefix@),
        decreases cmds@.len() - i,
    {
        assert(cv.take(i + 1).drop_last() == cv.take(i as int));
        assert(cv.take(i + 1).last() == (cmds@[i as int].trigger@, cmds@[i as int].insert@));
        let c_is_at = starts_with_at_sign(cmds[i].trigger.as_str());
        if is_at == c_is_at {
            let cname = strip_triggers_exec(cmds[i].trigger.as_str());
            let name = lower_chars(cname.as_str());
            if contains_vec(&name, &term) {
                let tier: u8 = if prefix_of(&term, &name) { 0 } else { 1 };
                let item = MenuItem {
                    display: cmds[i].trigger.clone(),
                    insert: cmds[i].insert.clone(),
                    kind: text_of("macro"),
                };
                let ghost before = rankeds_view(r@);
                let c = Ranked { item, tier, key: name };
                r.push(c);
                assert(rankeds_view(r@) == before.push(ranked_view(c)));
            }
        }
        i = i + 1;
    }
    assert(cv.take(cmds@.len() as int) == cv);
    proof {
        lemma_macro_candidates_keep_symbol(cv, prefix@);
        assert forall|k: int| 0 <= k < r@.len() implies at_sign_first((#[trigger] r@[k]).item.display@)
            == at_sign_first(prefix@) by {
            assert(rankeds_view(r@)[k] == ranked_view(r@[k]));
        }
    }
    r
}

/// The workspace files (relative paths) whose path, with `\` written as `/` and
/// lowercased, contains the lowercased prefix; sorted, each once.
pub open spec fn slashed(p: Seq<char>) -> Seq<char> {
    p.map_values(|c: char| if c == '\\' { '/' } else { c })
}

pub open spec fn matching_files(paths: Seq<Seq<char>>, prefix: Seq<char>) -> Seq<Seq<char>>
    decreases paths.len(),
{
    if paths.len() == 0 {
        Seq::empty()
    } else {
        let rest = matching_files(paths.drop_last(), prefix);
        let p = slashed(paths.last());
        if contains_seq(lowercase_of(p), lowercase_of(prefix)) {
            rest.push(p)
        } else {
            rest
        }
    }
}

/// File suggestions: of the given workspace paths (relative, as the directory walk found
/// them), those matching the prefix (see `matching_files`), sorted, each once.
pub fn get_file_suggestions(paths: &Vec<String>, prefix: &str) -> (r: Vec<String>)
    ensures
        strictly_sorted(strings_view(r@)),
        forall|x: Seq<char>|
            strings_view(r@).contains(x) <==> matching_files(strings_view(paths@), prefix@).contains(x),
{
    let term = lower_chars(prefix);
    let ghost pv = strings_view(paths@);
    let mut found: Vec<String> = Vec::new();
    let mut i: usize = 0;
    while i < paths.len()
        invariant
            i <= paths@.len(),
            pv == strings_view(paths@),
            term@ == lowercase_of(prefix@),
            strings_view(found@) == matching_files(pv.take(i as int), prefix@),
        decreases paths@.len() - i,
    {
        assert(pv.take(i + 1).drop_last() == pv.take(i as int));
        assert(pv.take(i + 1).last() == paths@[i as int]@);
        let v = chars_of(paths[i].as_str());
        let mut w: Vec<char> = Vec::new();
        let mut q: usize = 0;
        while q < v.len()
            invariant
                q <= v@.len(),
                w@ == v@.take(q as int).map_values(|c: char| if c == '\\' { '/' } else { c }),
            decreases v@.len() - q,
        {
            let c = v[q];
            w.push(if c == '\\' { '/' } else { c });
            assert(v@.take(q + 1) == v@.take(q as int).push(c));
            q = q + 1;
        }
        assert(v@.take(v@.len() as int) == v@);
        let p = string_of(&w);
        let lp = lower_chars(p.as_str());
        if contains_vec(&lp, &term) {
            let ghost before = strings_view(found@);
            found.push(p);
            assert(strings_view(found@) == before.push(w@));
        }
        i = i + 1;
    }
    assert(pv.take(paths@.len() as int) == pv);
    sort_dedup(&found)
}

/// A hidden entry: its name starts with `.`.
pub open spec fn hidden_name(name: Seq<char>) -> bool {
    name.len() > 0 && name[0] == '.'
}

/// The entries the workspace walk for file suggestions does not enter or list: hidden
/// ones and the build folders `target`, `build` and `out`.
pub open spec fn skipped_by_walk(name: Seq<char>) -> bool {
    hidden_name(name) || name == "target"@ || name == "build"@ || name == "out"@
}

/// Whether a directory entry is hidden (the file tree leaves those out).
pub fn is_hidden_name(name: &str) -> (b: bool)
    ensures
        b == hidden_name(name@),
{
    let v = chars_of(name);
    v.len() > 0 && v[0] == '.'
}

/// Whether the workspace walk for file suggestions skips an entry of this name.
pub fn is_skipped_by_walk(name: &str) -> (b: bool)
    ensures
        b == skipped_by_walk(name@),
{
    let v = chars_of(name);
    is_hidden_name(name) || vec_eq_str(&v, "target") || vec_eq_str(&v, "build") || vec_eq_str(
        &v,
        "out",
    )
}

// ------------------------------------------------------------------
// The popup
// ------------------------------------------------------------------

/// An open popup: the prefix it was built for, its items (never empty), the selected
/// one, and the character range of the prefix in the buffer that a choice replaces.
pub struct AutocompleteMenu {
    pub prefix: String,
    pub items: Vec<MenuItem>,
    pub selected: usize,
    pub start: usize,
    pub end: usize,
}

impl AutocompleteMenu {
    pub open spec fn wf(&self) -> bool {
        self.items@.len() > 0 && self.selected < self.items@.len() && self.start <= self.end
    }

    /// Moves the selection down, from the last item to the first.
    pub fn select_next(&mut self)
        requires
            old(self).wf(),
        ensures
            final(self).wf(),
            final(self).items@ == old(self).items@,
            final(self).prefix@ == old(self).prefix@,
            final(self).start == old(self).start,
            final(self).end == old(self).end,
            final(self).selected as int == crate::search::next_index(old(self).selected as int, old(self).items@.len() as int),
    {
        assert(self.selected < self.items.len());
        self.selected = (self.selected + 1) % self.items.len();
    }

    /// Moves the selection up, from the first item to the last.
    pub fn select_prev(&mut self)
        requires
            old(self).wf(),
        ensures
            final(self).wf(),
            final(self).items@ == old(self).items@,
            final(self).prefix@ == old(self).prefix@,
            final(self).start == old(self).start,
            final(self).end == old(self).end,
            final(self).selected as int == crate::search::prev_index(old(self).selected as int, old(self).items@.len() as int),
    {
        self.selected = if self.selected == 0 { self.items.len() - 1 } else { self.selected - 1 };
    }
}

/// The caret marker in templates.
pub open spec fn cursor_marker() -> Seq<char> {
    "$CURSOR$"@
}

/// A template with every caret marker removed.
pub open spec fn template_text(raw: Seq<char>) -> Seq<char> {
    replace_all(raw, cursor_marker(), Seq::empty())
}

/// How many characters of the template follow its first caret marker (0 without one):
/// the caret ends up that far before the end of the inserted text.
pub open spec fn caret_back(raw: Seq<char>) -> int {
    match find_from(raw, cursor_marker(), 0) {
        Some(i) => raw.len() - (i + cursor_marker().len()),
        None => 0,
    }
}

/// The buffer after the template `raw` replaced characters `start..end` of `text`, and
/// where the caret goes.
pub open spec fn completed(text: Seq<char>, start: int, end: int, raw: Seq<char>) -> (Seq<char>, int) {
    (
        text.take(start) + template_text(raw) + text.skip(end),
        start + template_text(raw).len() - caret_back(raw),
    )
}

/// Inserts the template `raw` over characters `start..end` of `text` (see `completed`).
pub fn apply_completion(text: &str, start: usize, end: usize, raw: &str) -> (r: (String, usize))
    requires
        start <= end <= text@.len(),
        start + template_text(raw@).len() >= caret_back(raw@),
    ensures
        (r.0@, r.1 as int) == completed(text@, start as int, end as int, raw@),
{
    proof {
        reveal_strlit("$CURSOR$");
    }
    let v = chars_of(text);
    let rv = chars_of(raw);
    let marker = chars_of("$CURSOR$");
    let none: Vec<char> = Vec::new();
    let cleaned = replace_text(&rv, &marker, &none);
    let back: usize = match find_seq_from(&rv, &marker, 0) {
        Some(i) => {
            proof {
                crate::text::lemma_find_from_props(rv@, marker@, 0);
            }
            rv.len() - (i + marker.len())
        },
        None => 0,
    };
    let mut out: Vec<char> = Vec::new();
    push_range(&mut out, &v, 0, start);
    push_all(&mut out, &cleaned);
    push_range(&mut out, &v, end, v.len());
    assert(v@.subrange(0, start as int) == v@.take(start as int));
    assert(v@.subrange(end as int, v@.len() as int) == v@.skip(end as int));
    assert(out@.len() == start + cleaned@.len() + (v@.len() - end));
    assert(out.len() <= usize::MAX);
    let pos = start + cleaned.len() - back;
    (string_of(&out), pos)
}

// ------------------------------------------------------------------
// Laws
// ------------------------------------------------------------------

proof fn lemma_rank_lt_transitive(x: RankedView, y: RankedView, z: RankedView)
    requires
        rank_lt(x, y),
        rank_lt(y, z),
    ensures
        rank_lt(x, z),
{
    if x.1 == y.1 && y.1 == z.1 {
        crate::order::lemma_seq_lt_transitive(x.2, y.2, z.2);
    }
}

proof fn lemma_insert_pos(s: Seq<RankedView>, e: RankedView, k: int)
    requires
        0 <= k <= s.len(),
    ensures
        k <= insert_pos(s, e, k) <= s.len(),
        forall|q: int| k <= q < insert_pos(s, e, k) ==> !rank_lt(e, #[trigger] s[q]),
        insert_pos(s, e, k) < s.len() ==> rank_lt(e, s[insert_pos(s, e, k)]),
    decreases s.len() - k,
{
    if k < s.len() && !rank_lt(e, s[k]) {
        lemma_insert_pos(s, e, k + 1);
    }
}

/// No element ranks strictly before an earlier one.
pub open spec fn rank_sorted(s: Seq<RankedView>) -> bool {
    forall|i: int, j: int| 0 <= i < j < s.len() ==> !rank_lt(#[trigger] s[j], #[trigger] s[i])
}

/// The ranking keeps every candidate and lists them in rank order.
pub proof fn lemma_stable_sort_sorted(s: Seq<RankedView>)
    ensures
        stable_sort(s).len() == s.len(),
        rank_sorted(stable_sort(s)),
    decreases s.len(),
{
    if s.len() > 0 {
        let r = stable_sort(s.drop_last());
        let e = s.last();
        lemma_stable_sort_sorted(s.drop_last());
        lemma_insert_pos(r, e, 0);
        let p = insert_pos(r, e, 0);
        let t = r.insert(p, e);
        assert forall|i: int, j: int| 0 <= i < j < t.len() implies !rank_lt(#[trigger] t[j], #[trigger] t[i]) by {
            if j < p {
                assert(t[i] == r[i] && t[j] == r[j]);
            } else if j == p {
                assert(t[i] == r[i]);
            } else if i == p {
                assert(t[j] == r[j - 1]);
                if rank_lt(r[j - 1], e) {
                    assert(rank_lt(e, r[p]));
                    lemma_rank_lt_transitive(r[j - 1], e, r[p]);
                    if p < j - 1 {
                        assert(!rank_lt(r[j - 1], r[p]));
                    } else {
                        crate::order::lemma_seq_lt_irreflexive(r[p].2);
                    }
                }
            } else if i < p {
                assert(t[i] == r[i] && t[j] == r[j - 1]);
            } else {
                assert(t[i] == r[i - 1] && t[j] == r[j - 1]);
            }
        }
    }
}

proof fn lemma_dedup_len(s: Seq<(Seq<char>, Seq<char>, Seq<char>)>)
    ensures
        dedup_display(s).len() <= s.len(),
    decreases s.len(),
{
    if s.len() > 0 {
        lemma_dedup_len(s.drop_last());
    }
}

/// The popup shows at most `MAX_SUGGESTIONS` items, and never more than there are
/// candidates.
pub proof fn lemma_menu_bounded(cands: Seq<RankedView>)
    ensures
        menu_items(cands).len() <= 12,
        menu_items(cands).len() <= cands.len(),
{
    lemma_stable_sort_sorted(cands);
    lemma_dedup_len(stable_sort(cands).map_values(|r: RankedView| r.0));
}

/// A text starts with the `@` of BibTeX entry templates.
pub open spec fn at_sign_first(s: Seq<char>) -> bool {
    s.len() > 0 && s[0] == '@'
}

/// Macro suggestions keep the trigger symbol typed: each is one of the templates, offered
/// as a macro, and its trigger starts with `@` exactly when the prefix does (a `\`
/// prefix never offers a BibTeX entry, an `@` prefix never offers a command).
pub proof fn lemma_macro_candidates_keep_symbol(cmds: Seq<(Seq<char>, Seq<char>)>, prefix: Seq<char>)
    ensures
        forall|k: int|
            0 <= k < macro_candidates(cmds, prefix).len() ==> {
                let c = (#[trigger] macro_candidates(cmds, prefix)[k]).0;
                &&& at_sign_first(c.0) == at_sign_first(prefix)
                &&& cmds.contains((c.0, c.1))
                &&& c.2 == "macro"@
            },
    decreases cmds.len(),
{
    if cmds.len() > 0 {
        let rest = macro_candidates(cmds.drop_last(), prefix);
        lemma_macro_candidates_keep_symbol(cmds.drop_last(), prefix);
        let all = macro_candidates(cmds, prefix);
        assert forall|k: int| 0 <= k < all.len() implies {
            let c = (#[trigger] all[k]).0;
            &&& at_sign_first(c.0) == at_sign_first(prefix)
            &&& cmds.contains((c.0, c.1))
            &&& c.2 == "macro"@
        } by {
            if k < rest.len() {
                assert(all[k] == rest[k]);
                let c = rest[k].0;
                assert(cmds.drop_last().contains((c.0, c.1)));
                let j = choose|j: int| 0 <= j < cmds.drop_last().len() && cmds.drop_last()[j] == (c.0, c.1);
                assert(cmds[j] == (c.0, c.1));
            } else {
                assert(cmds[cmds.len() - 1] == cmds.last());
            }
        }
    }
}

/// No matching template is left out: every template whose trigger starts with the same
/// symbol as the prefix and whose lowercased name contains the lowercased typed name is
/// offered as a macro.
pub proof fn lemma_macro_candidates_complete(
    cmds: Seq<(Seq<char>, Seq<char>)>,
    prefix: Seq<char>,
    j: int,
)
    requires
        0 <= j < cmds.len(),
        at_sign_first(cmds[j].0) == at_sign_first(prefix),
        contains_seq(lowercase_of(strip_triggers(cmds[j].0)), lowercase_of(strip_triggers(prefix))),
    ensures
        exists|k: int|
            0 <= k < macro_candidates(cmds, prefix).len() && (#[trigger] macro_candidates(
                cmds,
                prefix,
            )[k]).0 == (cmds[j].0, cmds[j].1, "macro"@),
    decreases cmds.len(),
{
    let all = macro_candidates(cmds, prefix);
    let rest = macro_candidates(cmds.drop_last(), prefix);
    if j == cmds.len() - 1 {
        assert(all[all.len() - 1].0 == (cmds[j].0, cmds[j].1, "macro"@));
    } else {
        assert(cmds.drop_last()[j] == cmds[j]);
        lemma_macro_candidates_complete(cmds.drop_last(), prefix, j);
        let k = choose|k: int|
            0 <= k < rest.len() && (#[trigger] rest[k]).0 == (cmds[j].0, cmds[j].1, "macro"@);
        assert(all[k] == rest[k]);
    }
}

} // verus!
