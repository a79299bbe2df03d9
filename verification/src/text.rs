//! Character-level text utilities shared by the editor's engines.
//!
//! All positions in this library are character (Unicode scalar) indices.
use vstd::prelude::*;

verus! {

// ------------------------------------------------------------------
// Specification helpers over character sequences
// ------------------------------------------------------------------

/// Unicode `White_Space` characters, the set that `char::is_whitespace` accepts.
pub open spec fn is_ws(c: char) -> bool {
    ||| ('\u{9}' <= c && c <= '\u{d}')
    ||| c == ' '
    ||| c == '\u{85}'
    ||| c == '\u{a0}'
    ||| c == '\u{1680}'
    ||| ('\u{2000}' <= c && c <= '\u{200a}')
    ||| c == '\u{2028}'
    ||| c == '\u{2029}'
    ||| c == '\u{202f}'
    ||| c == '\u{205f}'
    ||| c == '\u{3000}'
}

/// `s` without its trailing whitespace.
pub open spec fn trim_end(s: Seq<char>) -> Seq<char>
    decreases s.len(),
{
    if s.len() > 0 && is_ws(s.last()) {
        trim_end(s.drop_last())
    } else {
        s
    }
}

/// `s` without its leading whitespace.
pub open spec fn trim_start(s: Seq<char>) -> Seq<char>
    decreases s.len(),
{
    if s.len() > 0 && is_ws(s.first()) {
        trim_start(s.drop_first())
    } else {
        s
    }
}

/// `s` without leading and trailing whitespace.
pub open spec fn trim(s: Seq<char>) -> Seq<char> {
    trim_end(trim_start(s))
}

/// Index of the last occurrence of `c` in `s`.
pub open spec fn last_index_of(s: Seq<char>, c: char) -> Option<int>
    decreases s.len(),
{
    if s.len() == 0 {
        None
    } else if s.last() == c {
        Some(s.len() - 1)
    } else {
        last_index_of(s.drop_last(), c)
    }
}

/// Index of the first occurrence of `c` in `s`.
pub open spec fn first_index_of(s: Seq<char>, c: char) -> Option<int>
    decreases s.len(),
{
    if s.len() == 0 {
        None
    } else if s.first() == c {
        Some(0)
    } else {
        match first_index_of(s.drop_first(), c) {
            Some(i) => Some(i + 1),
            None => None,
        }
    }
}

/// `pat` occurs in `s` starting at `i`.
pub open spec fn occurs_at(s: Seq<char>, pat: Seq<char>, i: int) -> bool {
    0 <= i && i + pat.len() <= s.len() && s.subrange(i, i + pat.len()) == pat
}

/// The first position `i >= from` where `pat` occurs in `s`.
pub open spec fn find_from(s: Seq<char>, pat: Seq<char>, from: int) -> Option<int>
    decreases s.len() + 1 - from,
{
    if from < 0 || from + pat.len() > s.len() {
        None
    } else if occurs_at(s, pat, from) {
        Some(from)
    } else {
        find_from(s, pat, from + 1)
    }
}

/// The last position `i` with `i + |pat| <= end` where `pat` occurs in `s`.
pub open spec fn rfind_before(s: Seq<char>, pat: Seq<char>, end: int) -> Option<int>
    decreases end + 1,
{
    if end < pat.len() || end > s.len() {
        None
    } else if occurs_at(s, pat, end - pat.len()) {
        Some(end - pat.len())
    } else {
        rfind_before(s, pat, end - 1)
    }
}

/// `pat` occurs somewhere in `s`.
pub open spec fn contains_seq(s: Seq<char>, pat: Seq<char>) -> bool {
    find_from(s, pat, 0) is Some
}

// ------------------------------------------------------------------
// Proof helpers
// ------------------------------------------------------------------

pub proof fn lemma_find_from_props(s: Seq<char>, pat: Seq<char>, from: int)
    requires
        0 <= from,
    ensures
        find_from(s, pat, from) matches Some(i) ==> from <= i && occurs_at(s, pat, i) && (forall|
            j: int,
        | from <= j < i ==> !occurs_at(s, pat, j)),
        find_from(s, pat, from) is None ==> forall|j: int| from <= j ==> !occurs_at(s, pat, j),
    decreases s.len() + 1 - from,
{
    if from < 0 || from + pat.len() > s.len() {
    } else if occurs_at(s, pat, from) {
    } else {
        lemma_find_from_props(s, pat, from + 1);
    }
}

pub proof fn lemma_rfind_before_props(s: Seq<char>, pat: Seq<char>, end: int)
    requires
        end <= s.len(),
    ensures
        rfind_before(s, pat, end) matches Some(i) ==> i + pat.len() <= end && occurs_at(s, pat, i)
            && (forall|j: int| i < j && j + pat.len() <= end ==> !occurs_at(s, pat, j)),
        rfind_before(s, pat, end) is None ==> forall|j: int|
            0 <= j && j + pat.len() <= end ==> !occurs_at(s, pat, j),
    decreases end + 1,
{
    if end < pat.len() {
    } else if occurs_at(s, pat, end - pat.len()) {
    } else {
        lemma_rfind_before_props(s, pat, end - 1);
    }
}

pub proof fn lemma_last_index_of(s: Seq<char>, c: char)
    ensures
        last_index_of(s, c) matches Some(i) ==> 0 <= i < s.len() && s[i] == c && (forall|j: int|
            i < j < s.len() ==> s[j] != c),
        last_index_of(s, c) is None ==> forall|j: int| 0 <= j < s.len() ==> s[j] != c,
    decreases s.len(),
{
    if s.len() > 0 && s.last() != c {
        lemma_last_index_of(s.drop_last(), c);
        assert forall|j: int| 0 <= j < s.len() - 1 implies s.drop_last()[j] == s[j] by {}
    }
}

pub proof fn lemma_first_index_of(s: Seq<char>, c: char)
    ensures
        first_index_of(s, c) matches Some(i) ==> 0 <= i < s.len() && s[i] == c && (forall|j: int|
            0 <= j < i ==> s[j] != c),
        first_index_of(s, c) is None ==> forall|j: int| 0 <= j < s.len() ==> s[j] != c,
    decreases s.len(),
{
    if s.len() > 0 && s.first() != c {
        lemma_first_index_of(s.drop_first(), c);
        assert forall|j: int| 1 <= j < s.len() implies s[j] == s.drop_first()[j - 1] by {}
    }
}

/// Trimming leading whitespace keeps a suffix of the text.
pub proof fn lemma_trim_start_suffix(s: Seq<char>)
    ensures
        trim_start(s).is_suffix_of(s),
    decreases s.len(),
{
    if s.len() > 0 && is_ws(s.first()) {
        lemma_trim_start_suffix(s.drop_first());
        let r = trim_start(s.drop_first());
        assert(s.drop_first().subrange(s.drop_first().len() - r.len(), s.drop_first().len() as int)
            =~= s.subrange(s.len() - r.len(), s.len() as int));
    } else {
        assert(s.subrange(0, s.len() as int) =~= s);
    }
}

/// Trimming trailing whitespace keeps a prefix of the text.
pub proof fn lemma_trim_end_prefix(s: Seq<char>)
    ensures
        trim_end(s).is_prefix_of(s),
    decreases s.len(),
{
    if s.len() > 0 && is_ws(s.last()) {
        lemma_trim_end_prefix(s.drop_last());
        let r = trim_end(s.drop_last());
        assert(s.drop_last().take(r.len() as int) =~= s.take(r.len() as int));
    } else {
        assert(s.take(s.len() as int) =~= s);
    }
}

/// Characterizes `last_index_of` by its defining property.
pub proof fn lemma_last_index_of_unique(s: Seq<char>, c: char, i: int)
    requires
        0 <= i < s.len(),
        s[i] == c,
        forall|j: int| i < j < s.len() ==> s[j] != c,
    ensures
        last_index_of(s, c) == Some(i),
{
    lemma_last_index_of(s, c);
}

/// Characterizes `first_index_of` by its defining property.
pub proof fn lemma_first_index_of_unique(s: Seq<char>, c: char, i: int)
    requires
        0 <= i < s.len(),
        s[i] == c,
        forall|j: int| 0 <= j < i ==> s[j] != c,
    ensures
        first_index_of(s, c) == Some(i),
{
    lemma_first_index_of(s, c);
}

// ------------------------------------------------------------------
// Executable helpers
// ------------------------------------------------------------------

/// Appends one character to a `String`.
#[verifier::external_body]
pub(crate) fn push_char(s: &mut String, c: char)
    ensures
        final(s)@ == old(s)@.push(c),
{
    s.push(c);
}

/// The characters of `s`, in order.
pub fn chars_of(s: &str) -> (v: Vec<char>)
    ensures
        v@ == s@,
{
    let mut v: Vec<char> = Vec::new();
    for c in it: s.chars()
        invariant
            v@ == it.seq().take(it.index()),
    {
        v.push(c);
    }
    v
}

/// A `String` holding the characters `v[lo..hi]`.
pub fn string_of_range(v: &Vec<char>, lo: usize, hi: usize) -> (s: String)
    requires
        lo <= hi <= v.len(),
    ensures
        s@ == v@.subrange(lo as int, hi as int),
{
    let mut s = String::new();
    let mut i: usize = lo;
    while i < hi
        invariant
            lo <= i <= hi <= v.len(),
            s@ == v@.subrange(lo as int, i as int),
        decreases hi - i,
    {
        push_char(&mut s, v[i]);
        assert(v@.subrange(lo as int, i + 1) == v@.subrange(lo as int, i as int).push(v@[i as int]));
        i = i + 1;
    }
    s
}

/// A `String` holding exactly the characters `v`.
pub fn string_of(v: &Vec<char>) -> (s: String)
    ensures
        s@ == v@,
{
    let s = string_of_range(v, 0, v.len());
    assert(v@.subrange(0, v.len() as int) == v@);
    s
}

/// Appends the characters `v[lo..hi]` to `out`.
pub fn push_range(out: &mut Vec<char>, v: &Vec<char>, lo: usize, hi: usize)
    requires
        lo <= hi <= v.len(),
    ensures
        final(out)@ == old(out)@ + v@.subrange(lo as int, hi as int),
{
    let mut i: usize = lo;
    while i < hi
        invariant
            lo <= i <= hi <= v.len(),
            out@ == old(out)@ + v@.subrange(lo as int, i as int),
        decreases hi - i,
    {
        out.push(v[i]);
        assert(v@.subrange(lo as int, i + 1) == v@.subrange(lo as int, i as int).push(v@[i as int]));
        i = i + 1;
    }
}

/// Appends all characters of `v` to `out`.
pub fn push_all(out: &mut Vec<char>, v: &Vec<char>)
    ensures
        final(out)@ == old(out)@ + v@,
{
    push_range(out, v, 0, v.len());
    assert(v@.subrange(0, v.len() as int) == v@);
}

/// A copy of `v[lo..hi]`.
pub fn sub_vec(v: &Vec<char>, lo: usize, hi: usize) -> (r: Vec<char>)
    requires
        lo <= hi <= v.len(),
    ensures
        r@ == v@.subrange(lo as int, hi as int),
{
    let mut r: Vec<char> = Vec::new();
    push_range(&mut r, v, lo, hi);
    r
}

/// `char::is_whitespace`.
pub fn is_whitespace(c: char) -> (b: bool)
    ensures
        b == is_ws(c),
{
    ('\u{9}' <= c && c <= '\u{d}') || c == ' ' || c == '\u{85}' || c == '\u{a0}' || c == '\u{1680}'
        || ('\u{2000}' <= c && c <= '\u{200a}') || c == '\u{2028}' || c == '\u{2029}' || c
        == '\u{202f}' || c == '\u{205f}' || c == '\u{3000}'
}

/// The end index of `v[..end]` once its trailing whitespace is removed.
pub fn trim_end_at(v: &Vec<char>, end: usize) -> (e: usize)
    requires
        end <= v.len(),
    ensures
        e <= end,
        v@.take(e as int) == trim_end(v@.take(end as int)),
{
    let mut e = end;
    while e > 0 && is_whitespace(v[e - 1])
        invariant
            e <= end <= v.len(),
            trim_end(v@.take(e as int)) == trim_end(v@.take(end as int)),
        decreases e,
    {
        assert(v@.take(e as int).drop_last() == v@.take(e - 1));
        e = e - 1;
    }
    e
}

/// The start index of `v[start..end]` once its leading whitespace is removed.
pub fn trim_start_at(v: &Vec<char>, start: usize, end: usize) -> (b: usize)
    requires
        start <= end <= v.len(),
    ensures
        start <= b <= end,
        v@.subrange(b as int, end as int) == trim_start(v@.subrange(start as int, end as int)),
{
    let mut b = start;
    while b < end && is_whitespace(v[b])
        invariant
            start <= b <= end <= v.len(),
            trim_start(v@.subrange(b as int, end as int)) == trim_start(
                v@.subrange(start as int, end as int),
            ),
        decreases end - b,
    {
        assert(v@.subrange(b as int, end as int).drop_first() == v@.subrange(b + 1, end as int));
        b = b + 1;
    }
    b
}

/// The last index `i < end` with `v[i] == c`.
pub fn rfind_char(v: &Vec<char>, end: usize, c: char) -> (r: Option<usize>)
    requires
        end <= v.len(),
    ensures
        r matches Some(i) ==> last_index_of(v@.take(end as int), c) == Some(i as int),
        r is None ==> last_index_of(v@.take(end as int), c) is None,
        r matches Some(i) ==> i < end && v@[i as int] == c && forall|j: int|
            i < j < end ==> v@[j] != c,
        r is None ==> forall|j: int| 0 <= j < end ==> v@[j] != c,
{
    let mut i = end;
    while i > 0
        invariant
            i <= end <= v.len(),
            forall|j: int| i <= j < end ==> v@[j] != c,
        decreases i,
    {
        if v[i - 1] == c {
            proof {
                lemma_last_index_of_unique(v@.take(end as int), c, i - 1);
            }
            return Some(i - 1);
        }
        i = i - 1;
    }
    proof {
        lemma_last_index_of(v@.take(end as int), c);
    }
    None
}

/// The last index `i` in `[start, end)` with `v[i] == c`.
pub fn rfind_char_in(v: &Vec<char>, start: usize, end: usize, c: char) -> (r: Option<usize>)
    requires
        start <= end <= v.len(),
    ensures
        r matches Some(i) ==> start <= i < end && last_index_of(
            v@.subrange(start as int, end as int),
            c,
        ) == Some(i - start),
        r is None ==> last_index_of(v@.subrange(start as int, end as int), c) is None,
{
    let ghost sub = v@.subrange(start as int, end as int);
    let mut i = end;
    while i > start
        invariant
            start <= i <= end <= v.len(),
            sub == v@.subrange(start as int, end as int),
            forall|j: int| i <= j < end ==> v@[j] != c,
        decreases i,
    {
        if v[i - 1] == c {
            proof {
                lemma_last_index_of_unique(sub, c, i - 1 - start);
            }
            return Some(i - 1);
        }
        i = i - 1;
    }
    proof {
        lemma_last_index_of(sub, c);
    }
    None
}

/// The first index `i` in `[start, end)` with `v[i] == c`, relative to `start`.
pub fn find_char(v: &Vec<char>, start: usize, end: usize, c: char) -> (r: Option<usize>)
    requires
        start <= end <= v.len(),
    ensures
        r matches Some(i) ==> start <= i < end && first_index_of(
            v@.subrange(start as int, end as int),
            c,
        ) == Some(i - start),
        r is None ==> first_index_of(v@.subrange(start as int, end as int), c) is None,
{
    let ghost sub = v@.subrange(start as int, end as int);
    let mut i = start;
    while i < end
        invariant
            start <= i <= end <= v.len(),
            sub == v@.subrange(start as int, end as int),
            forall|j: int| start <= j < i ==> v@[j] != c,
        decreases end - i,
    {
        if v[i] == c {
            proof {
                lemma_first_index_of_unique(sub, c, i - start);
            }
            return Some(i);
        }
        i = i + 1;
    }
    proof {
        lemma_first_index_of(sub, c);
    }
    None
}

/// Whether `c` occurs in `v[start..end]`.
pub fn has_char(v: &Vec<char>, start: usize, end: usize, c: char) -> (b: bool)
    requires
        start <= end <= v.len(),
    ensures
        b == v@.subrange(start as int, end as int).contains(c),
{
    let mut i = start;
    while i < end
        invariant
            start <= i <= end <= v.len(),
            forall|j: int| start <= j < i ==> v@[j] != c,
        decreases end - i,
    {
        if v[i] == c {
            assert(v@.subrange(start as int, end as int)[i - start] == c);
            return true;
        }
        i = i + 1;
    }
    false
}

/// Whether `pat` occurs in `v` at position `i`.
pub fn matches_at(v: &Vec<char>, pat: &Vec<char>, i: usize) -> (b: bool)
    ensures
        b == occurs_at(v@, pat@, i as int),
{
    if i > v.len() || pat.len() > v.len() - i {
        return false;
    }
    let mut k: usize = 0;
    while k < pat.len()
        invariant
            i + pat.len() <= v.len(),
            k <= pat.len(),
            forall|j: int| 0 <= j < k ==> v@[i + j] == pat@[j],
        decreases pat.len() - k,
    {
        if v[i + k] != pat[k] {
            assert(v@.subrange(i as int, i + pat.len())[k as int] != pat@[k as int]);
            return false;
        }
        k = k + 1;
    }
    assert(v@.subrange(i as int, i + pat.len()) == pat@);
    true
}

/// Whether `v[..end]` ends with `pat`.
pub fn ends_with_at(v: &Vec<char>, end: usize, pat: &Vec<char>) -> (b: bool)
    requires
        end <= v.len(),
    ensures
        b == pat@.is_suffix_of(v@.take(end as int)),
{
    if pat.len() > end {
        return false;
    }
    let r = matches_at(v, pat, end - pat.len());
    assert(v@.take(end as int).subrange(end - pat.len(), end as int) == v@.subrange(
        end - pat.len(),
        end as int,
    ));
    r
}

/// Whether `v[start..]` starts with `pat`.
pub fn starts_with_at(v: &Vec<char>, start: usize, pat: &Vec<char>) -> (b: bool)
    requires
        start <= v.len(),
    ensures
        b == pat@.is_prefix_of(v@.skip(start as int)),
{
    let r = matches_at(v, pat, start);
    if pat.len() <= v.len() - start {
        assert(v@.skip(start as int).subrange(0, pat.len() as int) == v@.subrange(
            start as int,
            start + pat.len(),
        ));
    }
    r
}

/// The first position `i >= from` where `pat` occurs in `v`.
pub fn find_seq_from(v: &Vec<char>, pat: &Vec<char>, from: usize) -> (r: Option<usize>)
    ensures
        r matches Some(i) ==> find_from(v@, pat@, from as int) == Some(i as int),
        r is None ==> find_from(v@, pat@, from as int) is None,
{
    if from > v.len() || pat.len() > v.len() - from {
        return None;
    }
    let mut i = from;
    while i <= v.len() - pat.len()
        invariant
            from <= i,
            pat.len() <= v.len(),
            from + pat.len() <= v.len(),
            find_from(v@, pat@, i as int) == find_from(v@, pat@, from as int),
        decreases v.len() + 1 - i,
    {
        if matches_at(v, pat, i) {
            return Some(i);
        }
        if i == v.len() - pat.len() {
            assert(find_from(v@, pat@, i + 1) is None);
            return None;
        }
        i = i + 1;
    }
    None
}

/// The last position `i` with `i + |pat| <= end` where `pat` occurs in `v`.
pub fn rfind_seq_before(v: &Vec<char>, pat: &Vec<char>, end: usize) -> (r: Option<usize>)
    requires
        end <= v.len(),
    ensures
        r matches Some(i) ==> rfind_before(v@, pat@, end as int) == Some(i as int),
        r is None ==> rfind_before(v@, pat@, end as int) is None,
{
    let mut e = end;
    loop
        invariant
            e <= end <= v.len(),
            rfind_before(v@, pat@, e as int) == rfind_before(v@, pat@, end as int),
        decreases e,
    {
        if e < pat.len() {
            return None;
        }
        if matches_at(v, pat, e - pat.len()) {
            return Some(e - pat.len());
        }
        if e == 0 {
            assert(v@.subrange(0, 0) =~= pat@);
            return None;
        }
        e = e - 1;
    }
}

/// Whether two character vectors are equal.
pub fn vec_eq(a: &Vec<char>, b: &Vec<char>) -> (r: bool)
    ensures
        r == (a@ == b@),
{
    if a.len() != b.len() {
        return false;
    }
    let mut k: usize = 0;
    while k < a.len()
        invariant
            a.len() == b.len(),
            k <= a.len(),
            forall|j: int| 0 <= j < k ==> a@[j] == b@[j],
        decreases a.len() - k,
    {
        if a[k] != b[k] {
            return false;
        }
        k = k + 1;
    }
    assert(a@ == b@);
    true
}

/// Whether the characters of `a` are exactly those of the literal `lit`.
pub fn vec_eq_str(a: &Vec<char>, lit: &str) -> (r: bool)
    ensures
        r == (a@ == lit@),
{
    let l = chars_of(lit);
    vec_eq(a, &l)
}

/// Whether `a` ends with the characters of the literal `lit`.
pub fn vec_ends_with_str(a: &Vec<char>, lit: &str) -> (r: bool)
    ensures
        r == lit@.is_suffix_of(a@),
{
    let l = chars_of(lit);
    let r = ends_with_at(a, a.len(), &l);
    assert(a@.take(a.len() as int) == a@);
    r
}

/// What `str::to_lowercase` returns for a text: each character mapped to its Unicode
/// lowercase form.
pub uninterp spec fn lowercase_of(s: Seq<char>) -> Seq<char>;

/// ASCII lowercasing of one character.
pub open spec fn ascii_lower(c: char) -> char {
    if 'A' <= c && c <= 'Z' {
        ((c as u32) + 32) as char
    } else {
        c
    }
}

pub open spec fn is_ascii_text(s: Seq<char>) -> bool {
    forall|k: int| 0 <= k < s.len() ==> (#[trigger] s[k]) < '\u{80}'
}

/// `str::to_lowercase`. Its result is named `lowercase_of`; on ASCII text it is the ASCII
/// lowercasing, character by character (on other text the Unicode tables decide, which
/// this library does not spell out).
#[verifier::external_body]
pub(crate) fn to_lowercase(s: &str) -> (r: String)
    ensures
        r@ == lowercase_of(s@),
        is_ascii_text(s@) ==> r@ == s@.map_values(|c: char| ascii_lower(c)),
{
    s.to_lowercase()
}

} // verus!
