//! Caches of the citation keys found in `.bib` files and the labels found in `.tex`
//! files, refreshed file by file when a file changed since it was last read.
use vstd::prelude::*;
use crate::order::{sort_dedup, strictly_sorted, strings_view};
use crate::text::{lowercase_of, to_lowercase};

verus! {

/// The pattern of a BibTeX entry head: `@type{key,`, case-insensitive; group 1 is the key.
pub const BIB_KEY_PATTERN: &'static str = "@(?i)[a-zA-Z]+\\s*\\{\\s*([^,\\s]+)\\s*,";

/// The pattern of a `\label{...}`; group 1 is the label.
pub const LABEL_PATTERN: &'static str = "\\\\label\\{([^}]+)\\}";

/// What `Regex::new(pattern)` then `captures_iter(haystack)` yields: `None` when the
/// pattern does not compile, else for each match in order its whole text and the text
/// of group 1 (`None` when that group did not take part).
pub uninterp spec fn regex_captures(pattern: Seq<char>, haystack: Seq<char>) -> Option<
    Seq<(Seq<char>, Option<Seq<char>>)>,
>;

pub open spec fn captures_view(v: Seq<(String, Option<String>)>) -> Seq<(Seq<char>, Option<Seq<char>>)> {
    v.map_values(
        |c: (String, Option<String>)|
            (
                c.0@,
                match c.1 {
                    Some(g) => Some(g@),
                    None => None,
                },
            ),
    )
}

/// `regex::Regex::new` and `Regex::captures_iter`: compiles `pattern` and lists the
/// matches in `haystack` with their first group. The result is the name
/// `regex_captures` of the two texts; this library states nothing about the regex
/// language itself.
#[verifier::external_body]
fn captures_of(pattern: &str, haystack: &str) -> (r: Option<Vec<(String, Option<String>)>>)
    ensures
        match (r, regex_captures(pattern@, haystack@)) {
            (Some(v), Some(c)) => captures_view(v@) == c,
            (None, None) => true,
            _ => false,
        },
{
    match regex::Regex::new(pattern) {
        Ok(re) => Some(
            re.captures_iter(haystack).map(
                |cap| (cap[0].to_string(), cap.get(1).map(|m| m.as_str().to_string())),
            ).collect(),
        ),
        Err(_) => None,
    }
}

/// The group texts of the captures, skipping those whose whole match, lowercased, starts
/// with `@string` or `@comment`.
pub open spec fn bib_keys_from(caps: Seq<(Seq<char>, Option<Seq<char>>)>) -> Seq<Seq<char>>
    decreases caps.len(),
{
    if caps.len() == 0 {
        Seq::empty()
    } else {
        let rest = bib_keys_from(caps.drop_last());
        let c = caps.last();
        let full = lowercase_of(c.0);
        if "@string"@.is_prefix_of(full) || "@comment"@.is_prefix_of(full) {
            rest
        } else {
            match c.1 {
                Some(k) => rest.push(k),
                None => rest,
            }
        }
    }
}

/// The group texts of the captures.
pub open spec fn group_texts(caps: Seq<(Seq<char>, Option<Seq<char>>)>) -> Seq<Seq<char>>
    decreases caps.len(),
{
    if caps.len() == 0 {
        Seq::empty()
    } else {
        let rest = group_texts(caps.drop_last());
        match caps.last().1 {
            Some(k) => rest.push(k),
            None => rest,
        }
    }
}

/// The citation keys of a `.bib` file, in the order they appear.
pub open spec fn bib_keys(content: Seq<char>) -> Seq<Seq<char>> {
    match regex_captures(BIB_KEY_PATTERN@, content) {
        Some(caps) => bib_keys_from(caps),
        None => Seq::empty(),
    }
}

/// The labels of a `.tex` file, in the order they appear.
pub open spec fn label_keys(content: Seq<char>) -> Seq<Seq<char>> {
    match regex_captures(LABEL_PATTERN@, content) {
        Some(caps) => group_texts(caps),
        None => Seq::empty(),
    }
}

fn starts_with_lit(v: &String, lit: &str) -> (b: bool)
    ensures
        b == lit@.is_prefix_of(v@),
{
    let a = crate::text::chars_of(v.as_str());
    let l = crate::text::chars_of(lit);
    let r = crate::text::starts_with_at(&a, 0, &l);
    assert(a@.skip(0) == a@);
    r
}

/// Extracts the keys of a `.bib` file.
pub fn extract_bib_keys(content: &str) -> (keys: Vec<String>)
    ensures
        strings_view(keys@) == bib_keys(content@),
{
    let mut keys: Vec<String> = Vec::new();
    match captures_of(BIB_KEY_PATTERN, content) {
        None => {
            assert(strings_view(keys@) == Seq::<Seq<char>>::empty());
        },
        Some(caps) => {
            let ghost cv = captures_view(caps@);
            let mut i: usize = 0;
            while i < caps.len()
                invariant
                    i <= caps@.len(),
                    cv == captures_view(caps@),
                    strings_view(keys@) == bib_keys_from(cv.take(i as int)),
                decreases caps@.len() - i,
            {
                assert(cv.take(i + 1).drop_last() == cv.take(i as int));
                assert(cv.take(i + 1).last() == cv[i as int]);
                let full = to_lowercase(caps[i].0.as_str());
                if !starts_with_lit(&full, "@string") && !starts_with_lit(&full, "@comment") {
                    match &caps[i].1 {
                        Some(k) => {
                            let ghost before = strings_view(keys@);
                            keys.push(k.clone());
                            assert(strings_view(keys@) == before.push(k@));
                        },
                        None => {},
                    }
                }
                i = i + 1;
            }
            assert(cv.take(caps@.len() as int) == cv);
        },
    }
    keys
}

/// Extracts the labels of a `.tex` file.
pub fn extract_labels(content: &str) -> (keys: Vec<String>)
    ensures
        strings_view(keys@) == label_keys(content@),
{
    let mut keys: Vec<String> = Vec::new();
    match captures_of(LABEL_PATTERN, content) {
        None => {
            assert(strings_view(keys@) == Seq::<Seq<char>>::empty());
        },
        Some(caps) => {
            let ghost cv = captures_view(caps@);
            let mut i: usize = 0;
            while i < caps.len()
                invariant
                    i <= caps@.len(),
                    cv == captures_view(caps@),
                    strings_view(keys@) == group_texts(cv.take(i as int)),
                decreases caps@.len() - i,
            {
                assert(cv.take(i + 1).drop_last() == cv.take(i as int));
                assert(cv.take(i + 1).last() == cv[i as int]);
                match &caps[i].1 {
                    Some(k) => {
                        let ghost before = strings_view(keys@);
                        keys.push(k.clone());
                        assert(strings_view(keys@) == before.push(k@));
                    },
                    None => {},
                }
                i = i + 1;
            }
            assert(cv.take(caps@.len() as int) == cv);
        },
    }
    keys
}

// ------------------------------------------------------------------
// The cache
// ------------------------------------------------------------------

/// One tracked file: its path, the modification stamp it was read at, and its keys.
pub struct CacheEntry {
    pub path: String,
    pub modified: u128,
    pub keys: Vec<String>,
}

pub open spec fn entry_view(e: CacheEntry) -> (Seq<char>, int, Seq<Seq<char>>) {
    (e.path@, e.modified as int, strings_view(e.keys@))
}

/// A file of the workspace as the caller found it: its path, its modification stamp,
/// and its text when it was read (the caller reads it only when `needs_update` says so).
pub struct CacheSource {
    pub path: String,
    pub modified: u128,
    pub content: Option<String>,
}

pub type EntriesView = Seq<(Seq<char>, int, Seq<Seq<char>>)>;

/// Where `path` is tracked.
pub open spec fn find_path(es: EntriesView, path: Seq<char>) -> Option<int> {
    if exists|k: int| 0 <= k < es.len() && (#[trigger] es[k]).0 == path {
        Some(choose|k: int| 0 <= k < es.len() && (#[trigger] es[k]).0 == path)
    } else {
        None
    }
}

/// Each path is tracked at most once.
pub open spec fn distinct_paths(es: EntriesView) -> bool {
    forall|i: int, j: int| 0 <= i < j < es.len() ==> (#[trigger] es[i]).0 != (#[trigger] es[j]).0
}

/// Whether the file must be read again: it is not tracked, or it changed after it was read.
pub open spec fn stale(es: EntriesView, path: Seq<char>, modified: int) -> bool {
    match find_path(es, path) {
        Some(k) => es[k].1 < modified,
        None => true,
    }
}

/// The keys tracked for `path` (none when it is not tracked).
pub open spec fn tracked_keys(es: EntriesView, path: Seq<char>) -> Seq<Seq<char>> {
    match find_path(es, path) {
        Some(k) => es[k].2,
        None => Seq::empty(),
    }
}

/// `es` with `path` now read at `modified` with `keys`.
pub open spec fn store(es: EntriesView, path: Seq<char>, modified: int, keys: Seq<Seq<char>>) -> EntriesView {
    match find_path(es, path) {
        Some(k) => es.update(k, (path, modified, keys)),
        None => es.push((path, modified, keys)),
    }
}

/// The total number of keys tracked.
pub open spec fn total_keys(es: EntriesView) -> int
    decreases es.len(),
{
    if es.len() == 0 {
        0
    } else {
        total_keys(es.drop_last()) + es.last().2.len()
    }
}

/// The tracked files and their keys, shared by the bibliography and label caches.
pub struct KeyCache {
    files: Vec<CacheEntry>,
}

impl KeyCache {
    pub closed spec fn entries(&self) -> EntriesView {
        self.files@.map_values(|e: CacheEntry| entry_view(e))
    }

    #[verifier::type_invariant]
    closed spec fn inv(&self) -> bool {
        distinct_paths(self.entries())
    }

    pub fn new() -> (c: KeyCache)
        ensures
            c.entries().len() == 0,
    {
        let c = KeyCache { files: Vec::new() };
        assert(c.entries() == Seq::<(Seq<char>, int, Seq<Seq<char>>)>::empty());
        c
    }

    /// (files tracked, keys tracked).
    pub fn metrics(&self) -> (r: (usize, usize))
        requires
            total_keys(self.entries()) <= usize::MAX,
        ensures
            r.0 == self.entries().len(),
            r.1 == total_keys(self.entries()),
    {
        let ghost es = self.entries();
        let mut sum: usize = 0;
        let mut i: usize = 0;
        while i < self.files.len()
            invariant
                i <= self.files@.len(),
                es == self.entries(),
                total_keys(es) <= usize::MAX,
                sum == total_keys(es.take(i as int)),
            decreases self.files@.len() - i,
        {
            proof {
                assert(es.take(i + 1).drop_last() == es.take(i as int));
                lemma_total_keys_prefix(es, i + 1);
            }
            sum = sum + self.files[i].keys.len();
            i = i + 1;
        }
        assert(es.take(i as int) == es);
        (self.files.len(), sum)
    }

    fn position(&self, path: &String) -> (r: Option<usize>)
        ensures
            r matches Some(k) ==> find_path(self.entries(), path@) == Some(k as int),
            r is None ==> find_path(self.entries(), path@) is None,
    {
        proof {
            use_type_invariant(self);
        }
        let ghost es = self.entries();
        let mut i: usize = 0;
        while i < self.files.len()
            invariant
                i <= self.files@.len(),
                es == self.entries(),
                distinct_paths(es),
                forall|k: int| 0 <= k < i ==> (#[trigger] es[k]).0 != path@,
            decreases self.files@.len() - i,
        {
            if self.files[i].path == *path {
                proof {
                    assert(es[i as int].0 == path@);
                    let c = choose|k: int| 0 <= k < es.len() && (#[trigger] es[k]).0 == path@;
                    if c != i {
                        assert(distinct_paths(es));
                        if c < i {
                            assert(es[c].0 != es[i as int].0);
                        } else {
                            assert(es[i as int].0 != es[c].0);
                        }
                    }
                }
                return Some(i);
            }
            i = i + 1;
        }
        None
    }

    /// Whether `path` must be read again.
    pub fn needs_update(&self, path: &String, modified: u128) -> (b: bool)
        ensures
            b == stale(self.entries(), path@, modified as int),
    {
        match self.position(path) {
            Some(k) => self.files[k].modified < modified,
            None => true,
        }
    }

    /// Records `keys` as the keys of `path`, read at `modified`.
    pub fn store(&mut self, path: &String, modified: u128, keys: Vec<String>)
        ensures
            final(self).entries() == store(old(self).entries(), path@, modified as int, strings_view(keys@)),
    {
        proof {
            use_type_invariant(&*self);
        }
        let ghost es = self.entries();
        let entry = CacheEntry { path: path.clone(), modified, keys };
        match self.position(path) {
            Some(k) => {
                let mut files: Vec<CacheEntry> = Vec::new();
                std::mem::swap(&mut files, &mut self.files);
                files.set(k, entry);
                proof {
                    let nes = files@.map_values(|e: CacheEntry| entry_view(e));
                    assert(nes == es.update(k as int, (path@, modified as int, strings_view(keys@))));
                    assert forall|i: int, j: int| 0 <= i < j < nes.len() implies (#[trigger] nes[i]).0
                        != (#[trigger] nes[j]).0 by {
                        if i != k && j != k {
                            assert(nes[i] == es[i] && nes[j] == es[j]);
                        } else if i == k {
                            assert(nes[j] == es[j]);
                        } else {
                            assert(nes[i] == es[i]);
                        }
                    }
                }
                self.files = files;
            },
            None => {
                let mut files: Vec<CacheEntry> = Vec::new();
                std::mem::swap(&mut files, &mut self.files);
                files.push(entry);
                proof {
                    let nes = files@.map_values(|e: CacheEntry| entry_view(e));
                    assert(nes == es.push((path@, modified as int, strings_view(keys@))));
                    assert forall|i: int, j: int| 0 <= i < j < nes.len() implies (#[trigger] nes[i]).0
                        != (#[trigger] nes[j]).0 by {
                        assert(nes[i] == es[i]);
                        if j < es.len() {
                            assert(nes[j] == es[j]);
                        } else {
                            assert(es[i].0 != path@);
                        }
                    }
                }
                self.files = files;
            },
        }
    }

    /// The keys tracked for `path`.
    pub fn keys_of(&self, path: &String) -> (r: Vec<String>)
        ensures
            strings_view(r@) == tracked_keys(self.entries(), path@),
    {
        match self.position(path) {
            Some(k) => {
                let mut r: Vec<String> = Vec::new();
                let mut i: usize = 0;
                let ghost src = strings_view(self.files@[k as int].keys@);
                while i < self.files[k].keys.len()
                    invariant
                        k < self.files@.len(),
                        src == strings_view(self.files@[k as int].keys@),
                        i <= src.len(),
                        strings_view(r@) == src.take(i as int),
                    decreases src.len() - i,
                {
                    let s = self.files[k].keys[i].clone();
                    let ghost before = strings_view(r@);
                    r.push(s);
                    assert(strings_view(r@) == before.push(src[i as int]));
                    assert(src.take(i + 1) == src.take(i as int).push(src[i as int]));
                    i = i + 1;
                }
                assert(src.take(src.len() as int) == src);
                r
            },
            None => {
                let r: Vec<String> = Vec::new();
                assert(strings_view(r@) == Seq::<Seq<char>>::empty());
                r
            },
        }
    }
}

proof fn lemma_total_keys_prefix(es: EntriesView, n: int)
    requires
        0 < n <= es.len(),
    ensures
        total_keys(es.take(n)) == total_keys(es.take(n - 1)) + es[n - 1].2.len(),
        total_keys(es.take(n)) <= total_keys(es),
    decreases es.len() - n,
{
    assert(es.take(n).drop_last() == es.take(n - 1));
    if n < es.len() {
        lemma_total_keys_prefix(es, n + 1);
    } else {
        assert(es.take(n) == es);
    }
}

/// The cache after visiting `srcs[..n]`: each file that is stale and was read is stored
/// with the keys `extract` finds in it.
pub open spec fn refreshed(
    es: EntriesView,
    srcs: Seq<(Seq<char>, int, Option<Seq<char>>)>,
    n: int,
    labels: bool,
) -> EntriesView
    decreases n,
{
    if n <= 0 {
        es
    } else {
        let prev = refreshed(es, srcs, n - 1, labels);
        let s = srcs[n - 1];
        if stale(prev, s.0, s.1) {
            match s.2 {
                Some(text) => store(prev, s.0, s.1, if labels {
                    label_keys(text)
                } else {
                    bib_keys(text)
                }),
                None => prev,
            }
        } else {
            prev
        }
    }
}

/// The keys gathered while visiting `srcs[..n]`: after each file is refreshed, its
/// tracked keys.
pub open spec fn gathered(
    es: EntriesView,
    srcs: Seq<(Seq<char>, int, Option<Seq<char>>)>,
    n: int,
    labels: bool,
) -> Seq<Seq<char>>
    decreases n,
{
    if n <= 0 {
        Seq::empty()
    } else {
        gathered(es, srcs, n - 1, labels) + tracked_keys(refreshed(es, srcs, n, labels), srcs[n - 1].0)
    }
}

pub open spec fn sources_view(v: Seq<CacheSource>) -> Seq<(Seq<char>, int, Option<Seq<char>>)> {
    v.map_values(
        |s: CacheSource|
            (
                s.path@,
                s.modified as int,
                match s.content {
                    Some(t) => Some(t@),
                    None => None,
                },
            ),
    )
}

impl KeyCache {
    /// Visits the files in order: a stale file that was read is re-scanned (for labels
    /// when `labels`, else for citation keys) and stored; then the keys tracked for every
    /// visited file are returned sorted, each once.
    pub fn collect(&mut self, sources: &Vec<CacheSource>, labels: bool) -> (r: Vec<String>)
        ensures
            distinct_paths(old(self).entries()),
            final(self).entries() == refreshed(old(self).entries(), sources_view(sources@), sources@.len() as int, labels),
            strictly_sorted(strings_view(r@)),
            forall|x: Seq<char>|
                strings_view(r@).contains(x) <==> gathered(
                    old(self).entries(),
                    sources_view(sources@),
                    sources@.len() as int,
                    labels,
                ).contains(x),
    {
        proof {
            use_type_invariant(&*self);
        }
        let ghost es0 = self.entries();
        let ghost sv = sources_view(sources@);
        let mut all: Vec<String> = Vec::new();
        let mut i: usize = 0;
        while i < sources.len()
            invariant
                i <= sources@.len(),
                sv == sources_view(sources@),
                self.entries() == refreshed(es0, sv, i as int, labels),
                strings_view(all@) == gathered(es0, sv, i as int, labels),
            decreases sources@.len() - i,
        {
            let src = &sources[i];
            if self.needs_update(&src.path, src.modified) {
                match &src.content {
                    Some(text) => {
                        let keys = if labels {
                            extract_labels(text.as_str())
                        } else {
                            extract_bib_keys(text.as_str())
                        };
                        self.store(&src.path, src.modified, keys);
                    },
                    None => {},
                }
            }
            let ks = self.keys_of(&src.path);
            let ghost before = strings_view(all@);
            let mut q: usize = 0;
            while q < ks.len()
                invariant
                    q <= ks@.len(),
                    strings_view(all@) == before + strings_view(ks@).take(q as int),
                decreases ks@.len() - q,
            {
                let ghost prev = strings_view(all@);
                all.push(ks[q].clone());
                assert(strings_view(all@) == prev.push(ks@[q as int]@));
                assert(strings_view(ks@).take(q + 1) == strings_view(ks@).take(q as int).push(ks@[q as int]@));
                q = q + 1;
            }
            assert(strings_view(ks@).take(ks@.len() as int) == strings_view(ks@));
            i = i + 1;
        }
        sort_dedup(&all)
    }
}

/// The citation keys of the workspace's `.bib` files.
pub struct BibCache {
    pub cache: KeyCache,
}

impl BibCache {
    pub fn new() -> (c: BibCache)
        ensures
            c.cache.entries().len() == 0,
    {
        BibCache { cache: KeyCache::new() }
    }

    /// (files tracked, citation keys tracked).
    pub fn get_metrics(&self) -> (r: (usize, usize))
        requires
            total_keys(self.cache.entries()) <= usize::MAX,
        ensures
            r.0 == self.cache.entries().len(),
            r.1 == total_keys(self.cache.entries()),
    {
        self.cache.metrics()
    }

    /// Refreshes the `.bib` files given and returns all their citation keys, sorted,
    /// each once (see `KeyCache::collect`).
    pub fn get_keys(&mut self, bib_files: &Vec<CacheSource>) -> (r: Vec<String>)
        ensures
            distinct_paths(old(self).cache.entries()),
            final(self).cache.entries() == refreshed(old(self).cache.entries(), sources_view(bib_files@), bib_files@.len() as int, false),
            strictly_sorted(strings_view(r@)),
            forall|x: Seq<char>|
                strings_view(r@).contains(x) <==> gathered(
                    old(self).cache.entries(),
                    sources_view(bib_files@),
                    bib_files@.len() as int,
                    false,
                ).contains(x),
    {
        self.cache.collect(bib_files, false)
    }
}

/// The labels of the workspace's `.tex` files.
pub struct LabelCache {
    pub cache: KeyCache,
}

impl LabelCache {
    pub fn new() -> (c: LabelCache)
        ensures
            c.cache.entries().len() == 0,
    {
        LabelCache { cache: KeyCache::new() }
    }

    /// (files tracked, labels tracked).
    pub fn get_metrics(&self) -> (r: (usize, usize))
        requires
            total_keys(self.cache.entries()) <= usize::MAX,
        ensures
            r.0 == self.cache.entries().len(),
            r.1 == total_keys(self.cache.entries()),
    {
        self.cache.metrics()
    }

    /// Refreshes the `.tex` files given and returns all their labels, sorted, each once.
    pub fn get_labels(&mut self, tex_files: &Vec<CacheSource>) -> (r: Vec<String>)
        ensures
            distinct_paths(old(self).cache.entries()),
            final(self).cache.entries() == refreshed(old(self).cache.entries(), sources_view(tex_files@), tex_files@.len() as int, true),
            strictly_sorted(strings_view(r@)),
            forall|x: Seq<char>|
                strings_view(r@).contains(x) <==> gathered(
                    old(self).cache.entries(),
                    sources_view(tex_files@),
                    tex_files@.len() as int,
                    true,
                ).contains(x),
    {
        self.cache.collect(tex_files, true)
    }
}

/// Each source path occurs once.
pub open spec fn distinct_sources(srcs: Seq<(Seq<char>, int, Option<Seq<char>>)>) -> bool {
    forall|i: int, j: int| 0 <= i < j < srcs.len() ==> (#[trigger] srcs[i]).0 != (#[trigger] srcs[j]).0
}

/// The paths of `srcs[..n]`.
pub open spec fn visited(srcs: Seq<(Seq<char>, int, Option<Seq<char>>)>, n: int) -> Set<Seq<char>> {
    Set::new(|p: Seq<char>| exists|k: int| 0 <= k < n && (#[trigger] srcs[k]).0 == p)
}

/// The number of keys tracked for the files whose paths are in `vs`.
pub open spec fn keys_within(es: EntriesView, vs: Set<Seq<char>>) -> int
    decreases es.len(),
{
    if es.len() == 0 {
        0
    } else {
        keys_within(es.drop_last(), vs) + if vs.contains(es.last().0) {
            es.last().2.len() as int
        } else {
            0
        }
    }
}

proof fn lemma_keys_within_le(es: EntriesView, vs: Set<Seq<char>>)
    ensures
        0 <= keys_within(es, vs) <= total_keys(es),
    decreases es.len(),
{
    if es.len() > 0 {
        lemma_keys_within_le(es.drop_last(), vs);
    }
}

proof fn lemma_keys_within_update(es: EntriesView, vs: Set<Seq<char>>, k: int, e: (Seq<char>, int, Seq<Seq<char>>))
    requires
        0 <= k < es.len(),
        !vs.contains(es[k].0),
        !vs.contains(e.0),
    ensures
        keys_within(es.update(k, e), vs) == keys_within(es, vs),
    decreases es.len(),
{
    let es2 = es.update(k, e);
    if k == es.len() - 1 {
        assert(es2.drop_last() == es.drop_last());
    } else {
        assert(es2.drop_last() == es.drop_last().update(k, e));
        lemma_keys_within_update(es.drop_last(), vs, k, e);
    }
}

proof fn lemma_find_path_at(es: EntriesView, path: Seq<char>, k: int)
    requires
        distinct_paths(es),
        0 <= k < es.len(),
        es[k].0 == path,
    ensures
        find_path(es, path) == Some(k),
{
    let c = choose|c: int| 0 <= c < es.len() && (#[trigger] es[c]).0 == path;
    if c != k {
        if c < k {
            assert(es[c].0 != es[k].0);
        } else {
            assert(es[k].0 != es[c].0);
        }
    }
}

proof fn lemma_keys_within_insert(es: EntriesView, vs: Set<Seq<char>>, p: Seq<char>)
    requires
        distinct_paths(es),
        !vs.contains(p),
    ensures
        keys_within(es, vs.insert(p)) == keys_within(es, vs) + tracked_keys(es, p).len(),
    decreases es.len(),
{
    if es.len() > 0 {
        let r = es.drop_last();
        assert(distinct_paths(r)) by {
            assert forall|i: int, j: int| 0 <= i < j < r.len() implies (#[trigger] r[i]).0 != (#[trigger] r[j]).0 by {
                assert(r[i] == es[i] && r[j] == es[j]);
            }
        }
        lemma_keys_within_insert(r, vs, p);
        let n = es.len() - 1;
        if es[n].0 == p {
            lemma_find_path_at(es, p, n);
            assert forall|i: int| 0 <= i < r.len() implies (#[trigger] r[i]).0 != p by {
                assert(r[i] == es[i]);
                assert(es[i].0 != es[n].0);
            }
            assert(find_path(r, p) is None);
        } else {
            match find_path(r, p) {
                Some(k) => {
                    assert(r[k] == es[k]);
                    lemma_find_path_at(es, p, k);
                },
                None => {
                    assert forall|i: int| 0 <= i < es.len() implies (#[trigger] es[i]).0 != p by {
                        if i < n {
                            assert(r[i] == es[i]);
                        }
                    }
                },
            }
        }
    }
}

proof fn lemma_refreshed_within(
    es: EntriesView,
    srcs: Seq<(Seq<char>, int, Option<Seq<char>>)>,
    n: int,
    labels: bool,
)
    requires
        distinct_paths(es),
        distinct_sources(srcs),
        0 <= n <= srcs.len(),
    ensures
        distinct_paths(refreshed(es, srcs, n, labels)),
        refreshed(es, srcs, n, labels).len() >= es.len(),
        gathered(es, srcs, n, labels).len() == keys_within(refreshed(es, srcs, n, labels), visited(srcs, n)),
    decreases n,
{
    if n == 0 {
        assert(visited(srcs, 0) =~= Set::<Seq<char>>::empty());
        lemma_keys_within_zero(es);
    } else {
        lemma_refreshed_within(es, srcs, n - 1, labels);
        let prev = refreshed(es, srcs, n - 1, labels);
        let cur = refreshed(es, srcs, n, labels);
        let s = srcs[n - 1];
        let p = s.0;
        let v0 = visited(srcs, n - 1);
        assert(!v0.contains(p)) by {
            if v0.contains(p) {
                let k = choose|k: int| 0 <= k < n - 1 && (#[trigger] srcs[k]).0 == p;
                assert(srcs[k].0 != srcs[n - 1].0);
            }
        }
        assert(visited(srcs, n) =~= v0.insert(p)) by {
            assert forall|q: Seq<char>| visited(srcs, n).contains(q) implies #[trigger] v0.insert(p).contains(q) by {
                let k = choose|k: int| 0 <= k < n && (#[trigger] srcs[k]).0 == q;
                if k < n - 1 {
                    assert(v0.contains(q));
                }
            }
            assert forall|q: Seq<char>| v0.insert(p).contains(q) implies #[trigger] visited(srcs, n).contains(q) by {
                if q == p {
                    assert(srcs[n - 1].0 == q);
                } else {
                    let k = choose|k: int| 0 <= k < n - 1 && (#[trigger] srcs[k]).0 == q;
                    assert(srcs[k].0 == q);
                }
            }
        }
        if stale(prev, s.0, s.1) && s.2 is Some {
            let keys = if labels {
                label_keys(s.2->0)
            } else {
                bib_keys(s.2->0)
            };
            lemma_store_then_fresh(prev, p, s.1, keys, s.1);
            assert(cur == store(prev, p, s.1, keys));
            match find_path(prev, p) {
                Some(k) => {
                    lemma_keys_within_update(prev, v0, k, (p, s.1, keys));
                },
                None => {
                    assert(cur.drop_last() == prev);
                },
            }
        } else {
            assert(cur == prev);
        }
        lemma_keys_within_insert(cur, v0, p);
    }
}

proof fn lemma_keys_within_zero(es: EntriesView)
    ensures
        keys_within(es, Set::empty()) == 0,
    decreases es.len(),
{
    if es.len() > 0 {
        lemma_keys_within_zero(es.drop_last());
    }
}

proof fn lemma_refreshed_grows(
    es: EntriesView,
    srcs: Seq<(Seq<char>, int, Option<Seq<char>>)>,
    n: int,
    labels: bool,
)
    requires
        0 <= n <= srcs.len(),
    ensures
        refreshed(es, srcs, n, labels).len() >= es.len(),
        gathered(es, srcs, n, labels).len() > 0 ==> refreshed(es, srcs, n, labels).len() >= 1,
    decreases n,
{
    if n > 0 {
        lemma_refreshed_grows(es, srcs, n - 1, labels);
        let prev = refreshed(es, srcs, n - 1, labels);
        let cur = refreshed(es, srcs, n, labels);
        let s = srcs[n - 1];
        assert(cur.len() >= prev.len()) by {
            if stale(prev, s.0, s.1) && s.2 is Some {
                let keys = if labels {
                    label_keys(s.2->0)
                } else {
                    bib_keys(s.2->0)
                };
                assert(cur == store(prev, s.0, s.1, keys));
            }
        }
        if tracked_keys(cur, s.0).len() > 0 {
            assert(find_path(cur, s.0) is Some);
        }
    }
}

/// A refresh forgets no tracked file, and when it returns any key, at least one file is
/// tracked afterwards. (`es` is the cache before the refresh, `srcs` the files visited,
/// `r` the keys returned.)
pub proof fn lemma_refresh_keeps_files(
    es: EntriesView,
    srcs: Seq<(Seq<char>, int, Option<Seq<char>>)>,
    labels: bool,
    r: Seq<Seq<char>>,
)
    requires
        forall|x: Seq<char>| r.contains(x) <==> gathered(es, srcs, srcs.len() as int, labels).contains(x),
    ensures
        refreshed(es, srcs, srcs.len() as int, labels).len() >= es.len(),
        r.len() > 0 ==> refreshed(es, srcs, srcs.len() as int, labels).len() >= 1,
{
    lemma_refreshed_grows(es, srcs, srcs.len() as int, labels);
    if r.len() > 0 {
        assert(r.contains(r[0]));
    }
}

/// When the workspace lists each file once, the keys a refresh returns number at most the
/// keys tracked after it. (Listing a path twice breaks this: `a.bib` at stamp 1 with key
/// `k1`, then at stamp 2 with key `k2`, returns both keys while one is tracked.)
pub proof fn lemma_refresh_metrics(
    es: EntriesView,
    srcs: Seq<(Seq<char>, int, Option<Seq<char>>)>,
    labels: bool,
    r: Seq<Seq<char>>,
)
    requires
        distinct_paths(es),
        distinct_sources(srcs),
        strictly_sorted(r),
        forall|x: Seq<char>| r.contains(x) <==> gathered(es, srcs, srcs.len() as int, labels).contains(x),
    ensures
        r.len() <= total_keys(refreshed(es, srcs, srcs.len() as int, labels)),
{
    let n = srcs.len() as int;
    let g = gathered(es, srcs, n, labels);
    let fin = refreshed(es, srcs, n, labels);
    lemma_refreshed_within(es, srcs, n, labels);
    lemma_keys_within_le(fin, visited(srcs, n));
    assert(r.no_duplicates()) by {
        assert forall|i: int, j: int| 0 <= i < r.len() && 0 <= j < r.len() && i != j implies r[i] != r[j] by {
            if i < j {
                assert(crate::order::seq_lt(r[i], r[j]));
                if r[i] == r[j] {
                    crate::order::lemma_seq_lt_irreflexive(r[i]);
                }
            } else {
                assert(crate::order::seq_lt(r[j], r[i]));
                if r[i] == r[j] {
                    crate::order::lemma_seq_lt_irreflexive(r[i]);
                }
            }
        }
    }
    r.unique_seq_to_set();
    g.lemma_cardinality_of_set();
    assert(r.to_set().subset_of(g.to_set())) by {
        assert forall|x: Seq<char>| r.to_set().contains(x) implies g.to_set().contains(x) by {
            assert(r.contains(x));
        }
    }
    vstd::set_lib::lemma_len_subset(r.to_set(), g.to_set());
}

/// Once a file is stored at a modification stamp, it is not stale again until its stamp
/// grows, and its tracked keys are the ones stored.
pub proof fn lemma_store_then_fresh(es: EntriesView, path: Seq<char>, modified: int, keys: Seq<Seq<char>>, later: int)
    requires
        distinct_paths(es),
    ensures
        distinct_paths(store(es, path, modified, keys)),
        tracked_keys(store(es, path, modified, keys), path) == keys,
        stale(store(es, path, modified, keys), path, later) <==> modified < later,
{
    let ns = store(es, path, modified, keys);
    match find_path(es, path) {
        Some(k) => {
            assert(0 <= k < es.len() && es[k].0 == path);
            assert forall|i: int, j: int| 0 <= i < j < ns.len() implies (#[trigger] ns[i]).0 != (#[trigger] ns[j]).0 by {
                if i != k && j != k {
                    assert(ns[i] == es[i] && ns[j] == es[j]);
                } else if i == k {
                    assert(ns[j] == es[j]);
                    assert(es[i].0 != es[j].0);
                } else {
                    assert(ns[i] == es[i]);
                    assert(es[i].0 != es[j].0);
                }
            }
            assert(ns[k].0 == path);
            let c = choose|c: int| 0 <= c < ns.len() && (#[trigger] ns[c]).0 == path;
            if c != k {
                if c < k {
                    assert(ns[c].0 != ns[k].0);
                } else {
                    assert(ns[k].0 != ns[c].0);
                }
            }
            assert(find_path(ns, path) == Some(k));
        },
        None => {
            assert(forall|i: int| 0 <= i < es.len() ==> (#[trigger] es[i]).0 != path);
            let n = es.len() as int;
            assert forall|i: int, j: int| 0 <= i < j < ns.len() implies (#[trigger] ns[i]).0 != (#[trigger] ns[j]).0 by {
                assert(ns[i] == es[i]);
                if j < n {
                    assert(ns[j] == es[j]);
                }
            }
            assert(ns[n].0 == path);
            let c = choose|c: int| 0 <= c < ns.len() && (#[trigger] ns[c]).0 == path;
            if c < n {
                assert(ns[c] == es[c]);
            }
            assert(find_path(ns, path) == Some(n));
        },
    }
}

} // verus!
