//! Structural navigation in LaTeX sources: bracket pairing and `\begin`/`\end` synchronisation.
use vstd::prelude::*;
use crate::text::{
    chars_of, find_from, find_seq_from, lemma_find_from_props, lemma_rfind_before_props,
    occurs_at, rfind_before, rfind_seq_before, string_of_range,
};

verus! {

// ==========================================
// BRACKET PAIR MATCHING
// ==========================================

/// The closing bracket paired with an opening one.
pub open spec fn closer_of(c: char) -> Option<char> {
    if c == '(' {
        Some(')')
    } else if c == '[' {
        Some(']')
    } else if c == '{' {
        Some('}')
    } else {
        None
    }
}

/// The opening bracket paired with a closing one.
pub open spec fn opener_of(c: char) -> Option<char> {
    if c == ')' {
        Some('(')
    } else if c == ']' {
        Some('[')
    } else if c == '}' {
        Some('{')
    } else {
        None
    }
}

/// Nesting depth after scanning `s[lo..hi)` forwards from just inside an opening bracket.
pub open spec fn fwd_depth(s: Seq<char>, open: char, close: char, lo: int, hi: int) -> int
    decreases hi - lo,
{
    if hi <= lo {
        1
    } else {
        fwd_depth(s, open, close, lo, hi - 1) + (if s[hi - 1] == open {
            1int
        } else {
            0int
        }) - (if s[hi - 1] == close {
            1int
        } else {
            0int
        })
    }
}

/// Nesting depth after scanning `s[lo..hi)` backwards from just inside a closing bracket.
pub open spec fn back_depth(s: Seq<char>, open: char, close: char, lo: int, hi: int) -> int
    decreases hi - lo,
{
    if hi <= lo {
        1
    } else {
        back_depth(s, open, close, lo + 1, hi) + (if s[lo] == close {
            1int
        } else {
            0int
        }) - (if s[lo] == open {
            1int
        } else {
            0int
        })
    }
}

/// Nesting depth once the character at `k` has been scanned, starting inside the bracket at `idx`.
pub open spec fn depth_through(s: Seq<char>, open: char, close: char, idx: int, k: int) -> int {
    fwd_depth(s, open, close, idx + 1, k + 1)
}

/// `j` is the first position after the opening bracket at `idx` where the brackets balance.
pub open spec fn closes_at(s: Seq<char>, open: char, close: char, idx: int, j: int) -> bool {
    &&& idx < j < s.len()
    &&& depth_through(s, open, close, idx, j) == 0
    &&& forall|k: int| idx < k < j ==> #[trigger] depth_through(s, open, close, idx, k) != 0
}

/// `j` is the first position before the closing bracket at `idx` where the brackets balance.
pub open spec fn opens_at(s: Seq<char>, open: char, close: char, idx: int, j: int) -> bool {
    &&& 0 <= j < idx
    &&& back_depth(s, open, close, j, idx) == 0
    &&& forall|k: int| j < k < idx ==> #[trigger] back_depth(s, open, close, k, idx) != 0
}

/// The bracket pair that the bracket at `idx` belongs to, if any.
pub open spec fn pair_at(s: Seq<char>, idx: int) -> Option<(int, int)> {
    if idx < 0 || idx >= s.len() {
        None
    } else if closer_of(s[idx]) is Some {
        let close = closer_of(s[idx])->0;
        if exists|j: int| closes_at(s, s[idx], close, idx, j) {
            Some((idx, choose|j: int| closes_at(s, s[idx], close, idx, j)))
        } else {
            None
        }
    } else if opener_of(s[idx]) is Some {
        let open = opener_of(s[idx])->0;
        if exists|j: int| opens_at(s, open, s[idx], idx, j) {
            Some((choose|j: int| opens_at(s, open, s[idx], idx, j), idx))
        } else {
            None
        }
    } else {
        None
    }
}

/// The bracket pair at the cursor: the bracket right after it, else the one right before it.
pub open spec fn spec_matching_brackets(s: Seq<char>, cursor: int) -> Option<(int, int)> {
    match pair_at(s, cursor) {
        Some(p) => Some(p),
        None => if cursor > 0 {
            pair_at(s, cursor - 1)
        } else {
            None
        },
    }
}

proof fn lemma_closes_at_unique(s: Seq<char>, open: char, close: char, idx: int, j1: int, j2: int)
    requires
        closes_at(s, open, close, idx, j1),
        closes_at(s, open, close, idx, j2),
    ensures
        j1 == j2,
{
}

proof fn lemma_opens_at_unique(s: Seq<char>, open: char, close: char, idx: int, j1: int, j2: int)
    requires
        opens_at(s, open, close, idx, j1),
        opens_at(s, open, close, idx, j2),
    ensures
        j1 == j2,
{
}

/// Scans forwards from the opening bracket at `idx` for its partner.
fn scan_forward(s: &Vec<char>, idx: usize, open: char, close: char) -> (r: Option<usize>)
    requires
        idx < s.len(),
        open != close,
    ensures
        r matches Some(j) ==> closes_at(s@, open, close, idx as int, j as int),
        r is None ==> !exists|j: int| closes_at(s@, open, close, idx as int, j),
{
    let mut depth: usize = 1;
    let mut i = idx + 1;
    while i < s.len()
        invariant
            idx < i <= s.len(),
            open != close,
            depth as int == fwd_depth(s@, open, close, idx + 1, i as int),
            1 <= depth <= i - idx,
            forall|k: int| idx < k < i ==> #[trigger] depth_through(s@, open, close, idx as int, k) != 0,
        decreases s.len() - i,
    {
        if s[i] == open {
            depth = depth + 1;
        } else if s[i] == close {
            depth = depth - 1;
        }
        if depth == 0 {
            return Some(i);
        }
        i = i + 1;
    }
    None
}

/// Scans backwards from the closing bracket at `idx` for its partner.
fn scan_backward(s: &Vec<char>, idx: usize, open: char, close: char) -> (r: Option<usize>)
    requires
        idx < s.len(),
        open != close,
    ensures
        r matches Some(j) ==> opens_at(s@, open, close, idx as int, j as int),
        r is None ==> !exists|j: int| opens_at(s@, open, close, idx as int, j),
{
    let mut depth: usize = 1;
    let mut i = idx;
    while i > 0
        invariant
            i <= idx < s.len(),
            open != close,
            depth as int == back_depth(s@, open, close, i as int, idx as int),
            1 <= depth <= idx - i + 1,
            forall|k: int| i <= k < idx ==> #[trigger] back_depth(s@, open, close, k, idx as int) != 0,
        decreases i,
    {
        let k = i - 1;
        if s[k] == close {
            depth = depth + 1;
        } else if s[k] == open {
            depth = depth - 1;
        }
        if depth == 0 {
            return Some(k);
        }
        i = k;
    }
    None
}

fn check_idx(s: &Vec<char>, idx: usize) -> (r: Option<(usize, usize)>)
    ensures
        r matches Some(p) ==> pair_at(s@, idx as int) == Some((p.0 as int, p.1 as int)),
        r is None ==> pair_at(s@, idx as int) is None,
{
    if idx >= s.len() {
        return None;
    }
    let c = s[idx];
    let close = if c == '(' {
        Some(')')
    } else if c == '[' {
        Some(']')
    } else if c == '{' {
        Some('}')
    } else {
        None
    };
    if let Some(cl) = close {
        let r = scan_forward(s, idx, c, cl);
        match r {
            Some(j) => {
                proof {
                    let jj = choose|j: int| closes_at(s@, c, cl, idx as int, j);
                    lemma_closes_at_unique(s@, c, cl, idx as int, j as int, jj);
                }
                return Some((idx, j));
            },
            None => return None,
        }
    }
    let open = if c == ')' {
        Some('(')
    } else if c == ']' {
        Some('[')
    } else if c == '}' {
        Some('{')
    } else {
        None
    };
    if let Some(op) = open {
        let r = scan_backward(s, idx, op, c);
        match r {
            Some(j) => {
                proof {
                    let jj = choose|j: int| opens_at(s@, op, c, idx as int, j);
                    lemma_opens_at_unique(s@, op, c, idx as int, j as int, jj);
                }
                return Some((j, idx));
            },
            None => return None,
        }
    }
    None
}

/// Finds the bracket pair (character positions) adjacent to the cursor: the bracket
/// just after the cursor is tried first, then the one just before it.
pub fn find_matching_brackets(text: &str, cursor_idx: usize) -> (r: Option<(usize, usize)>)
    ensures
        r matches Some(p) ==> spec_matching_brackets(text@, cursor_idx as int) == Some(
            (p.0 as int, p.1 as int),
        ),
        r is None ==> spec_matching_brackets(text@, cursor_idx as int) is None,
{
    let chars = chars_of(text);
    if chars.len() == 0 {
        return None;
    }
    match check_idx(&chars, cursor_idx) {
        Some(p) => Some(p),
        None => if cursor_idx > 0 {
            check_idx(&chars, cursor_idx - 1)
        } else {
            None
        },
    }
}

// ==========================================
// ENVIRONMENT NAME SYNCHRONISATION
// ==========================================

/// Number of bytes of the UTF-8 encoding of `c`.
pub open spec fn utf8_width(c: char) -> int {
    if '\u{80}' > c {
        1
    } else if '\u{800}' > c {
        2
    } else if '\u{10000}' > c {
        3
    } else {
        4
    }
}

/// Number of bytes of the UTF-8 encoding of `s`.
pub open spec fn byte_len(s: Seq<char>) -> int
    decreases s.len(),
{
    if s.len() == 0 {
        0
    } else {
        byte_len(s.drop_last()) + utf8_width(s.last())
    }
}

/// Size, in bytes, of the windows searched around the cursor for the enclosing braces.
pub open spec fn sync_window() -> int {
    100
}

/// Start (character index) of the window before the cursor: the position `sync_window()`
/// bytes before it, or the start of the text. `None` when that byte position falls inside
/// a character.
pub open spec fn lookback_start(t: Seq<char>, cursor: int) -> Option<int> {
    if byte_len(t.take(cursor)) <= sync_window() {
        Some(0)
    } else if exists|l: int|
        0 <= l <= cursor && #[trigger] byte_len(t.subrange(l, cursor)) == sync_window() {
        Some(choose|l: int| 0 <= l <= cursor && #[trigger] byte_len(t.subrange(l, cursor)) == sync_window())
    } else {
        None
    }
}

/// End (character index) of the window after the cursor: the position `sync_window()` bytes
/// after it, or the end of the text. `None` when that byte position falls inside a character.
pub open spec fn lookahead_end(t: Seq<char>, cursor: int) -> Option<int> {
    if byte_len(t.subrange(cursor, t.len() as int)) <= sync_window() {
        Some(t.len() as int)
    } else if exists|r: int|
        cursor <= r <= t.len() && #[trigger] byte_len(t.subrange(cursor, r)) == sync_window() {
        Some(choose|r: int| cursor <= r <= t.len() && #[trigger] byte_len(t.subrange(cursor, r)) == sync_window())
    } else {
        None
    }
}

/// A character that bounds the brace search.
pub open spec fn is_brace_or_nl(c: char) -> bool {
    c == '{' || c == '}' || c == '\n'
}

/// Last position in `[lo, hi)` holding a brace or a newline.
pub open spec fn last_stop(t: Seq<char>, lo: int, hi: int) -> Option<int>
    decreases hi - lo,
{
    if hi <= lo {
        None
    } else if is_brace_or_nl(t[hi - 1]) {
        Some(hi - 1)
    } else {
        last_stop(t, lo, hi - 1)
    }
}

/// First position in `[lo, hi)` holding a brace or a newline.
pub open spec fn first_stop(t: Seq<char>, lo: int, hi: int) -> Option<int>
    decreases hi - lo,
{
    if hi <= lo {
        None
    } else if is_brace_or_nl(t[lo]) {
        Some(lo)
    } else {
        first_stop(t, lo + 1, hi)
    }
}

/// The name in the tag whose name starts at `ms`, replaced by `name` when it differs.
pub open spec fn retag(t: Seq<char>, name: Seq<char>, ms: int) -> Option<(int, int, Seq<char>)> {
    match crate::text::first_index_of(t.subrange(ms, t.len() as int), '}') {
        Some(off) => if t.subrange(ms, ms + off) != name {
            Some((ms, ms + off, name))
        } else {
            None
        },
        None => None,
    }
}

/// Walks forwards from `from` for the `\end` that closes a `\begin` at nesting `depth`.
pub open spec fn fwd_env(t: Seq<char>, name: Seq<char>, depth: int, from: int) -> Option<
    (int, int, Seq<char>),
>
    decreases t.len() + 10 - from,
{
    if from < 0 || from >= t.len() {
        None
    } else {
        proof {
            reveal_strlit("\\begin{");
            reveal_strlit("\\end{");
            lemma_find_from_props(t, "\\begin{"@, from);
            lemma_find_from_props(t, "\\end{"@, from);
        }
        match (find_from(t, "\\begin{"@, from), find_from(t, "\\end{"@, from)) {
            (Some(b), Some(e)) => if b < e {
                fwd_env(t, name, depth + 1, b + 7)
            } else if depth - 1 == 0 {
                retag(t, name, e + 5)
            } else {
                fwd_env(t, name, depth - 1, e + 5)
            },
            (Some(b), None) => fwd_env(t, name, depth + 1, b + 7),
            (None, Some(e)) => if depth - 1 == 0 {
                retag(t, name, e + 5)
            } else {
                fwd_env(t, name, depth - 1, e + 5)
            },
            (None, None) => None,
        }
    }
}

/// Walks backwards from `to` for the `\begin` that opens an `\end` at nesting `depth`.
pub open spec fn back_env(t: Seq<char>, name: Seq<char>, depth: int, to: int) -> Option<
    (int, int, Seq<char>),
>
    decreases to,
{
    if to <= 0 || to > t.len() {
        None
    } else {
        proof {
            reveal_strlit("\\begin{");
            reveal_strlit("\\end{");
            lemma_rfind_before_props(t, "\\begin{"@, to);
            lemma_rfind_before_props(t, "\\end{"@, to);
        }
        match (rfind_before(t, "\\begin{"@, to), rfind_before(t, "\\end{"@, to)) {
            (Some(b), Some(e)) => if e > b {
                back_env(t, name, depth + 1, e)
            } else if depth - 1 == 0 {
                retag(t, name, b + 7)
            } else {
                back_env(t, name, depth - 1, b)
            },
            (Some(b), None) => if depth - 1 == 0 {
                retag(t, name, b + 7)
            } else {
                back_env(t, name, depth - 1, b)
            },
            (None, Some(e)) => back_env(t, name, depth + 1, e),
            (None, None) => None,
        }
    }
}

/// The edit that keeps a `\begin{..}`/`\end{..}` pair in sync when the cursor stands
/// inside one of the two names: the range of the partner's name and the new name.
pub open spec fn spec_sync_env_edits(t: Seq<char>, cursor: int) -> Option<(int, int, Seq<char>)> {
    let lo = lookback_start(t, cursor)->0;
    let hi = lookahead_end(t, cursor)->0;
    match last_stop(t, lo, cursor) {
        Some(bs) => if t[bs] != '{' {
            None
        } else {
            match first_stop(t, cursor, hi) {
                Some(be) => if t[be] != '}' {
                    None
                } else {
                    let before = t.take(bs);
                    let name = t.subrange(bs + 1, be);
                    if "\\begin"@.is_suffix_of(before) {
                        fwd_env(t, name, 1, be + 1)
                    } else if "\\end"@.is_suffix_of(before) {
                        let start = match rfind_before(t, "\\end"@, bs) {
                            Some(i) => i,
                            None => 0,
                        };
                        back_env(t, name, 1, start)
                    } else {
                        None
                    }
                },
                None => None,
            }
        },
        None => None,
    }
}

/// The windows around the cursor start and end on character boundaries.
pub open spec fn sync_window_valid(t: Seq<char>, cursor: int) -> bool {
    0 <= cursor <= t.len() && lookback_start(t, cursor) is Some && lookahead_end(t, cursor) is Some
}

proof fn lemma_byte_len_append(a: Seq<char>, b: Seq<char>)
    ensures
        byte_len(a + b) == byte_len(a) + byte_len(b),
    decreases b.len(),
{
    if b.len() > 0 {
        lemma_byte_len_append(a, b.drop_last());
        assert((a + b).drop_last() == a + b.drop_last());
    } else {
        assert(a + b == a);
    }
}

proof fn lemma_byte_len_ge_len(a: Seq<char>)
    ensures
        byte_len(a) >= a.len(),
    decreases a.len(),
{
    if a.len() > 0 {
        lemma_byte_len_ge_len(a.drop_last());
    }
}

/// `byte_len` over `t[lo..hi)` splits at any `mid`.
proof fn lemma_byte_len_split(t: Seq<char>, lo: int, mid: int, hi: int)
    requires
        0 <= lo <= mid <= hi <= t.len(),
    ensures
        byte_len(t.subrange(lo, hi)) == byte_len(t.subrange(lo, mid)) + byte_len(
            t.subrange(mid, hi),
        ),
{
    assert(t.subrange(lo, hi) == t.subrange(lo, mid) + t.subrange(mid, hi));
    lemma_byte_len_append(t.subrange(lo, mid), t.subrange(mid, hi));
}

proof fn lemma_byte_len_single(t: Seq<char>, i: int)
    requires
        0 <= i < t.len(),
    ensures
        byte_len(t.subrange(i, i + 1)) == utf8_width(t[i]),
{
    let s = t.subrange(i, i + 1);
    assert(s.drop_last() == Seq::<char>::empty());
    assert(byte_len(s.drop_last()) == 0);
    assert(s.last() == t[i]);
}

/// The number of bytes of the UTF-8 encoding of `c`.
pub fn char_width(c: char) -> (w: usize)
    ensures
        w == utf8_width(c),
{
    if '\u{80}' > c {
        1
    } else if '\u{800}' > c {
        2
    } else if '\u{10000}' > c {
        3
    } else {
        4
    }
}

fn lookback_of(v: &Vec<char>, cursor: usize) -> (r: Option<usize>)
    requires
        cursor <= v.len(),
    ensures
        r matches Some(l) ==> lookback_start(v@, cursor as int) == Some(l as int),
        r is None ==> lookback_start(v@, cursor as int) is None,
{
    let mut acc: usize = 0;
    let mut i = cursor;
    while i > 0 && acc < 100
        invariant
            i <= cursor <= v.len(),
            acc == byte_len(v@.subrange(i as int, cursor as int)),
            acc < 104,
            i < cursor ==> byte_len(v@.subrange(i + 1, cursor as int)) < 100,
        decreases i,
    {
        proof {
            lemma_byte_len_split(v@, i - 1, i as int, cursor as int);
            lemma_byte_len_single(v@, i - 1);
        }
        acc = acc + char_width(v[i - 1]);
        i = i - 1;
    }
    proof {
        lemma_byte_len_split(v@, 0, i as int, cursor as int);
        assert(v@.take(cursor as int) == v@.subrange(0, cursor as int));
        lemma_byte_len_ge_len(v@.subrange(0, i as int));
    }
    if acc <= 100 {
        if i == 0 {
            assert(v@.subrange(0, 0) == Seq::<char>::empty());
            return Some(0);
        }
        proof {
            let l = choose|l: int|
                0 <= l <= cursor && #[trigger] byte_len(v@.subrange(l, cursor as int)) == sync_window();
            if l < i {
                lemma_byte_len_split(v@, l, i as int, cursor as int);
                lemma_byte_len_ge_len(v@.subrange(l, i as int));
            } else if l > i {
                lemma_byte_len_split(v@, i as int, l, cursor as int);
                lemma_byte_len_ge_len(v@.subrange(i as int, l));
            }
        }
        return Some(i);
    }
    proof {
        assert forall|l: int| 0 <= l <= cursor implies #[trigger] byte_len(
            v@.subrange(l, cursor as int),
        ) != sync_window() by {
            if l <= i {
                lemma_byte_len_split(v@, l, i as int, cursor as int);
                lemma_byte_len_ge_len(v@.subrange(l, i as int));
            } else {
                lemma_byte_len_split(v@, i + 1, l, cursor as int);
                lemma_byte_len_ge_len(v@.subrange(i + 1, l));
            }
        }
    }
    None
}

fn lookahead_of(v: &Vec<char>, cursor: usize) -> (r: Option<usize>)
    requires
        cursor <= v.len(),
    ensures
        r matches Some(h) ==> lookahead_end(v@, cursor as int) == Some(h as int),
        r is None ==> lookahead_end(v@, cursor as int) is None,
{
    let n = v.len();
    let mut acc: usize = 0;
    let mut i = cursor;
    while i < n && acc < 100
        invariant
            cursor <= i <= n == v.len(),
            acc == byte_len(v@.subrange(cursor as int, i as int)),
            acc < 104,
            i > cursor ==> byte_len(v@.subrange(cursor as int, i - 1)) < 100,
        decreases n - i,
    {
        proof {
            lemma_byte_len_split(v@, cursor as int, i as int, i + 1);
            lemma_byte_len_single(v@, i as int);
        }
        acc = acc + char_width(v[i]);
        i = i + 1;
    }
    proof {
        lemma_byte_len_split(v@, cursor as int, i as int, n as int);
        lemma_byte_len_ge_len(v@.subrange(i as int, n as int));
    }
    if acc <= 100 {
        if i == n {
            return Some(n);
        }
        proof {
            let r = choose|r: int|
                cursor <= r <= n && #[trigger] byte_len(v@.subrange(cursor as int, r)) == sync_window();
            if r > i {
                lemma_byte_len_split(v@, cursor as int, i as int, r);
                lemma_byte_len_ge_len(v@.subrange(i as int, r));
            } else if r < i {
                lemma_byte_len_split(v@, cursor as int, r, i as int);
                lemma_byte_len_ge_len(v@.subrange(r, i as int));
            }
        }
        return Some(i);
    }
    proof {
        assert forall|r: int| cursor <= r <= n implies #[trigger] byte_len(
            v@.subrange(cursor as int, r),
        ) != sync_window() by {
            if r >= i {
                lemma_byte_len_split(v@, cursor as int, i as int, r);
                lemma_byte_len_ge_len(v@.subrange(i as int, r));
            } else {
                lemma_byte_len_split(v@, cursor as int, r, i - 1);
                lemma_byte_len_ge_len(v@.subrange(r, i - 1));
            }
        }
    }
    None
}

/// Whether the byte windows around the cursor that `get_sync_env_edits` inspects start and
/// end on character boundaries.
pub fn sync_window_is_valid(text: &str, cursor_idx: usize) -> (b: bool)
    ensures
        b == sync_window_valid(text@, cursor_idx as int),
{
    let v = chars_of(text);
    if cursor_idx > v.len() {
        return false;
    }
    lookback_of(&v, cursor_idx).is_some() && lookahead_of(&v, cursor_idx).is_some()
}

fn last_stop_of(v: &Vec<char>, lo: usize, hi: usize) -> (r: Option<usize>)
    requires
        lo <= hi <= v.len(),
    ensures
        r matches Some(i) ==> last_stop(v@, lo as int, hi as int) == Some(i as int) && lo <= i
            < hi,
        r is None ==> last_stop(v@, lo as int, hi as int) is None,
{
    let mut i = hi;
    while i > lo
        invariant
            lo <= i <= hi <= v.len(),
            last_stop(v@, lo as int, i as int) == last_stop(v@, lo as int, hi as int),
        decreases i,
    {
        let c = v[i - 1];
        if c == '{' || c == '}' || c == '\n' {
            return Some(i - 1);
        }
        i = i - 1;
    }
    None
}

fn first_stop_of(v: &Vec<char>, lo: usize, hi: usize) -> (r: Option<usize>)
    requires
        lo <= hi <= v.len(),
    ensures
        r matches Some(i) ==> first_stop(v@, lo as int, hi as int) == Some(i as int) && lo <= i
            < hi,
        r is None ==> first_stop(v@, lo as int, hi as int) is None,
{
    let mut i = lo;
    while i < hi
        invariant
            lo <= i <= hi <= v.len(),
            first_stop(v@, i as int, hi as int) == first_stop(v@, lo as int, hi as int),
        decreases hi - i,
    {
        let c = v[i];
        if c == '{' || c == '}' || c == '\n' {
            return Some(i);
        }
        i = i + 1;
    }
    None
}

/// Whether `v[lo..hi]` equals `w`.
fn range_eq(v: &Vec<char>, lo: usize, hi: usize, w: &Vec<char>) -> (b: bool)
    requires
        lo <= hi <= v.len(),
    ensures
        b == (v@.subrange(lo as int, hi as int) == w@),
{
    if hi - lo != w.len() {
        return false;
    }
    let mut k: usize = 0;
    while k < w.len()
        invariant
            lo + w.len() == hi <= v.len(),
            k <= w.len(),
            forall|j: int| 0 <= j < k ==> v@[lo + j] == w@[j],
        decreases w.len() - k,
    {
        if v[lo + k] != w[k] {
            assert(v@.subrange(lo as int, hi as int)[k as int] != w@[k as int]);
            return false;
        }
        k = k + 1;
    }
    assert(v@.subrange(lo as int, hi as int) == w@);
    true
}

fn retag_of(v: &Vec<char>, name: &Vec<char>, ms: usize) -> (r: Option<(usize, usize)>)
    requires
        ms <= v.len(),
    ensures
        r matches Some(p) ==> retag(v@, name@, ms as int) == Some((p.0 as int, p.1 as int, name@))
            && p.0 <= p.1 <= v.len(),
        r is None ==> retag(v@, name@, ms as int) is None,
{
    match crate::text::find_char(v, ms, v.len(), '}') {
        Some(e) => {
            if !range_eq(v, ms, e, name) {
                Some((ms, e))
            } else {
                None
            }
        },
        None => None,
    }
}

fn fwd_env_of(v: &Vec<char>, name: &Vec<char>, start: usize) -> (r: Option<(usize, usize)>)
    requires
        1 <= start,
    ensures
        r matches Some(p) ==> fwd_env(v@, name@, 1, start as int) == Some(
            (p.0 as int, p.1 as int, name@),
        ) && p.0 <= p.1 <= v.len(),
        r is None ==> fwd_env(v@, name@, 1, start as int) is None,
{
    let begin_pat = chars_of("\\begin{");
    let end_pat = chars_of("\\end{");
    proof {
        reveal_strlit("\\begin{");
        reveal_strlit("\\end{");
    }
    let mut depth: usize = 1;
    let mut search_idx = start;
    while search_idx < v.len()
        invariant
            begin_pat@ == "\\begin{"@,
            end_pat@ == "\\end{"@,
            begin_pat@.len() == 7,
            end_pat@.len() == 5,
            1 <= depth <= search_idx,
            fwd_env(v@, name@, depth as int, search_idx as int) == fwd_env(
                v@,
                name@,
                1,
                start as int,
            ),
        decreases v.len() - search_idx,
    {
        let nb = find_seq_from(v, &begin_pat, search_idx);
        let ne = find_seq_from(v, &end_pat, search_idx);
        proof {
            lemma_find_from_props(v@, begin_pat@, search_idx as int);
            lemma_find_from_props(v@, end_pat@, search_idx as int);
        }
        match (nb, ne) {
            (Some(b), Some(e)) => {
                if b < e {
                    depth = depth + 1;
                    search_idx = b + 7;
                } else {
                    if depth == 1 {
                        return retag_of(v, name, e + 5);
                    }
                    depth = depth - 1;
                    search_idx = e + 5;
                }
            },
            (Some(b), None) => {
                depth = depth + 1;
                search_idx = b + 7;
            },
            (None, Some(e)) => {
                if depth == 1 {
                    return retag_of(v, name, e + 5);
                }
                depth = depth - 1;
                search_idx = e + 5;
            },
            (None, None) => {
                return None;
            },
        }
    }
    None
}

fn back_env_of(v: &Vec<char>, name: &Vec<char>, start: usize) -> (r: Option<(usize, usize)>)
    requires
        start <= v.len(),
    ensures
        r matches Some(p) ==> back_env(v@, name@, 1, start as int) == Some(
            (p.0 as int, p.1 as int, name@),
        ) && p.0 <= p.1 <= v.len(),
        r is None ==> back_env(v@, name@, 1, start as int) is None,
{
    let begin_pat = chars_of("\\begin{");
    let end_pat = chars_of("\\end{");
    proof {
        reveal_strlit("\\begin{");
        reveal_strlit("\\end{");
    }
    let mut depth: usize = 1;
    let mut search_idx = start;
    while search_idx > 0
        invariant
            begin_pat@ == "\\begin{"@,
            end_pat@ == "\\end{"@,
            begin_pat@.len() == 7,
            end_pat@.len() == 5,
            search_idx <= start <= v.len(),
            1 <= depth,
            depth + search_idx <= start + 1,
            back_env(v@, name@, depth as int, search_idx as int) == back_env(
                v@,
                name@,
                1,
                start as int,
            ),
        decreases search_idx,
    {
        let pb = rfind_seq_before(v, &begin_pat, search_idx);
        let pe = rfind_seq_before(v, &end_pat, search_idx);
        proof {
            lemma_rfind_before_props(v@, begin_pat@, search_idx as int);
            lemma_rfind_before_props(v@, end_pat@, search_idx as int);
        }
        match (pb, pe) {
            (Some(b), Some(e)) => {
                if e > b {
                    depth = depth + 1;
                    search_idx = e;
                } else {
                    if depth == 1 {
                        return retag_of(v, name, b + 7);
                    }
                    depth = depth - 1;
                    search_idx = b;
                }
            },
            (Some(b), None) => {
                if depth == 1 {
                    return retag_of(v, name, b + 7);
                }
                depth = depth - 1;
                search_idx = b;
            },
            (None, Some(e)) => {
                depth = depth + 1;
                search_idx = e;
            },
            (None, None) => {
                return None;
            },
        }
    }
    None
}

/// When the cursor (a character index) stands inside the name of a `\begin{..}` (or
/// `\end{..}`), finds the name of the structurally matching `\end{..}` (or `\begin{..}`)
/// and, if it differs, returns its character range together with the name it should take.
/// The enclosing braces are searched within `sync_window()` bytes of the cursor.
pub fn sync_env_edits_at_char(text: &str, cursor_idx: usize) -> (r: Option<
    (std::ops::Range<usize>, String),
>)
    requires
        sync_window_valid(text@, cursor_idx as int),
    ensures
        r matches Some(p) ==> spec_sync_env_edits(text@, cursor_idx as int) == Some(
            (p.0.start as int, p.0.end as int, p.1@),
        ) && p.0.start <= p.0.end <= text@.len(),
        r is None ==> spec_sync_env_edits(text@, cursor_idx as int) is None,
{
    let v = chars_of(text);
    let lo = lookback_of(&v, cursor_idx).unwrap();
    let hi = lookahead_of(&v, cursor_idx).unwrap();
    proof {
        assert(lo <= cursor_idx) by {
            if lo > cursor_idx {
                let l = lo as int;
                assert(byte_len(v@.take(cursor_idx as int)) > sync_window());
            }
        }
    }
    let bs = match last_stop_of(&v, lo, cursor_idx) {
        Some(i) => i,
        None => return None,
    };
    if v[bs] != '{' {
        return None;
    }
    let be = match first_stop_of(&v, cursor_idx, hi) {
        Some(i) => i,
        None => return None,
    };
    if v[be] != '}' {
        return None;
    }
    let name = crate::text::sub_vec(&v, bs + 1, be);
    let begin_kw = chars_of("\\begin");
    let end_kw = chars_of("\\end");
    let found = if crate::text::ends_with_at(&v, bs, &begin_kw) {
        fwd_env_of(&v, &name, be + 1)
    } else if crate::text::ends_with_at(&v, bs, &end_kw) {
        let start = match rfind_seq_before(&v, &end_kw, bs) {
            Some(i) => i,
            None => 0,
        };
        proof {
            lemma_rfind_before_props(v@, end_kw@, bs as int);
        }
        back_env_of(&v, &name, start)
    } else {
        return None;
    };
    match found {
        Some((ms, me)) => {
            let new_name = string_of_range(&v, bs + 1, be);
            Some((std::ops::Range { start: ms, end: me }, new_name))
        },
        None => None,
    }
}

/// The character index at which the first `b` bytes of `t` end, when `b` falls on a
/// character boundary.
pub open spec fn char_at_byte(t: Seq<char>, b: int) -> Option<int> {
    if exists|k: int| 0 <= k <= t.len() && #[trigger] byte_len(t.take(k)) == b {
        Some(choose|k: int| 0 <= k <= t.len() && #[trigger] byte_len(t.take(k)) == b)
    } else {
        None
    }
}

/// The byte cursor falls on a character boundary of `t`, and the byte windows around it
/// do too (see `sync_window_valid`).
pub open spec fn sync_bytes_valid(t: Seq<char>, b: int) -> bool {
    char_at_byte(t, b) matches Some(k) && sync_window_valid(t, k)
}

/// The number of leading characters of `v` that spell exactly `n` bytes, if there is one.
fn char_index_of_byte(v: &Vec<char>, n: usize) -> (r: Option<usize>)
    requires
        byte_len(v@) <= usize::MAX,
    ensures
        r matches Some(k) ==> k <= v@.len() && byte_len(v@.take(k as int)) == n,
        r is None ==> forall|k: int| 0 <= k <= v@.len() ==> byte_len(#[trigger] v@.take(k)) != n,
{
    let mut acc: usize = 0;
    let mut k: usize = 0;
    assert(v@.take(0) == Seq::<char>::empty());
    while k < v.len() && acc < n
        invariant
            k <= v@.len(),
            byte_len(v@) <= usize::MAX,
            acc as int == byte_len(v@.take(k as int)),
            forall|j: int| 0 <= j < k ==> byte_len(#[trigger] v@.take(j)) < n,
        decreases v@.len() - k,
    {
        proof {
            lemma_byte_len_take_step(v@, k as int);
            lemma_byte_len_prefix_le(v@, k + 1);
        }
        acc = acc + char_width(v[k]);
        k = k + 1;
    }
    if acc == n {
        return Some(k);
    }
    proof {
        assert forall|j: int| 0 <= j <= v@.len() implies byte_len(#[trigger] v@.take(j)) != n by {
            if j > k {
                lemma_byte_len_take_mono(v@, k as int, j);
            }
            if j == k && k == v@.len() {
            }
        }
    }
    None
}

/// The number of bytes of the first `a` characters of `v`.
fn byte_offset(v: &Vec<char>, a: usize) -> (r: usize)
    requires
        a <= v@.len(),
        byte_len(v@) <= usize::MAX,
    ensures
        r == byte_len(v@.take(a as int)),
{
    let mut acc: usize = 0;
    let mut k: usize = 0;
    assert(v@.take(0) == Seq::<char>::empty());
    while k < a
        invariant
            k <= a <= v@.len(),
            byte_len(v@) <= usize::MAX,
            acc as int == byte_len(v@.take(k as int)),
        decreases a - k,
    {
        proof {
            lemma_byte_len_take_step(v@, k as int);
            lemma_byte_len_prefix_le(v@, k + 1);
        }
        acc = acc + char_width(v[k]);
        k = k + 1;
    }
    acc
}

/// When the cursor (a byte index) stands inside the name of a `\begin{..}` (or
/// `\end{..}`), finds the name of the structurally matching `\end{..}` (or `\begin{..}`)
/// and, if it differs, returns its byte range together with the name it should take (see
/// `spec_sync_env_edits`, which works on character positions). The enclosing braces are
/// searched within `sync_window()` bytes of the cursor.
pub fn get_sync_env_edits(text: &str, cursor_byte_idx: usize) -> (r: Option<
    (std::ops::Range<usize>, String),
>)
    requires
        sync_bytes_valid(text@, cursor_byte_idx as int),
        byte_len(text@) <= usize::MAX,
    ensures
        match spec_sync_env_edits(text@, char_at_byte(text@, cursor_byte_idx as int)->0) {
            Some((a, b, name)) => r matches Some(p) && p.0.start == byte_len(text@.take(a)) && p.0.end
                == byte_len(text@.take(b)) && p.1@ == name,
            None => r is None,
        },
{
    let v = chars_of(text);
    let ghost c = char_at_byte(text@, cursor_byte_idx as int)->0;
    let k = match char_index_of_byte(&v, cursor_byte_idx) {
        Some(k) => k,
        None => {
            proof {
                assert(byte_len(v@.take(c)) == cursor_byte_idx);
            }
            return None;
        },
    };
    proof {
        lemma_byte_len_take_unique(v@, k as int, c);
    }
    match sync_env_edits_at_char(text, k) {
        Some((range, name)) => {
            let start = byte_offset(&v, range.start);
            let end = byte_offset(&v, range.end);
            Some((std::ops::Range { start, end }, name))
        },
        None => None,
    }
}

proof fn lemma_byte_len_take_step(s: Seq<char>, k: int)
    requires
        0 <= k < s.len(),
    ensures
        byte_len(s.take(k + 1)) == byte_len(s.take(k)) + utf8_width(s[k]),
        utf8_width(s[k]) >= 1,
{
    assert(s.take(k + 1).drop_last() == s.take(k));
}

proof fn lemma_byte_len_take_mono(s: Seq<char>, i: int, j: int)
    requires
        0 <= i <= j <= s.len(),
    ensures
        byte_len(s.take(i)) + (j - i) <= byte_len(s.take(j)),
    decreases j - i,
{
    if i < j {
        lemma_byte_len_take_mono(s, i, j - 1);
        lemma_byte_len_take_step(s, j - 1);
    }
}

/// The number of leading characters of `v` that spell exactly `n` bytes, if there is one.
pub fn char_count_at_byte(v: &Vec<char>, n: usize) -> (r: Option<usize>)
    requires
        n <= usize::MAX - 4,
    ensures
        r matches Some(k) ==> k <= v@.len() && byte_len(v@.take(k as int)) == n,
        r is None ==> forall|k: int| 0 <= k <= v@.len() ==> byte_len(#[trigger] v@.take(k)) != n,
{
    let mut acc: usize = 0;
    let mut k: usize = 0;
    assert(v@.take(0) == Seq::<char>::empty());
    while k < v.len() && acc < n
        invariant
            k <= v@.len(),
            acc as int == byte_len(v@.take(k as int)),
            forall|j: int| 0 <= j < k ==> byte_len(#[trigger] v@.take(j)) < n,
            acc <= n + 4,
            n <= usize::MAX - 4,
        decreases v@.len() - k,
    {
        proof {
            lemma_byte_len_take_step(v@, k as int);
        }
        acc = acc + char_width(v[k]);
        k = k + 1;
    }
    if acc == n {
        return Some(k);
    }
    proof {
        assert forall|j: int| 0 <= j <= v@.len() implies byte_len(#[trigger] v@.take(j)) != n by {
            if j > k {
                lemma_byte_len_take_mono(v@, k as int, j);
            }
        }
    }
    None
}

pub proof fn lemma_byte_len_take_unique(s: Seq<char>, i: int, j: int)
    requires
        0 <= i <= s.len(),
        0 <= j <= s.len(),
        byte_len(s.take(i)) == byte_len(s.take(j)),
    ensures
        i == j,
{
    if i < j {
        lemma_byte_len_take_mono(s, i, j);
    } else if j < i {
        lemma_byte_len_take_mono(s, j, i);
    }
}

/// When `k < |s|` characters spell `n` bytes, the whole text spells more.
pub proof fn lemma_byte_len_take_unique_long(s: Seq<char>, k: int)
    requires
        0 <= k < s.len(),
    ensures
        byte_len(s.take(k)) < byte_len(s),
{
    lemma_byte_len_take_mono(s, k, s.len() as int);
    assert(s.take(s.len() as int) == s);
}

/// The whole text is one of its own prefixes.
pub proof fn lemma_byte_len_take_unique_long_none(s: Seq<char>)
    ensures
        byte_len(s.take(s.len() as int)) == byte_len(s),
{
    assert(s.take(s.len() as int) == s);
}

/// A prefix spells at most as many bytes as the text.
pub proof fn lemma_byte_len_prefix_le(s: Seq<char>, k: int)
    requires
        0 <= k <= s.len(),
    ensures
        byte_len(s.take(k)) <= byte_len(s),
        byte_len(s.take(k)) <= 4 * k,
    decreases k,
{
    lemma_byte_len_take_mono(s, k, s.len() as int);
    assert(s.take(s.len() as int) == s);
    if k > 0 {
        lemma_byte_len_prefix_le(s, k - 1);
        lemma_byte_len_take_step(s, k - 1);
    }
}

// ------------------------------------------------------------------
// After the sync edit
// ------------------------------------------------------------------

proof fn lemma_lookback_le(t: Seq<char>, c: int, x: int)
    requires
        sync_window_valid(t, c),
        0 <= x <= c,
        byte_len(t.subrange(x, c)) <= sync_window(),
    ensures
        lookback_start(t, c)->0 <= x,
{
    if byte_len(t.take(c)) > sync_window() {
        let lo = lookback_start(t, c)->0;
        if lo > x {
            lemma_byte_len_split(t, x, lo, c);
            lemma_byte_len_ge_len(t.subrange(x, lo));
        }
    }
}

proof fn lemma_lookback_bound(t: Seq<char>, c: int, x: int)
    requires
        sync_window_valid(t, c),
        lookback_start(t, c)->0 <= x <= c,
    ensures
        byte_len(t.subrange(x, c)) <= sync_window(),
{
    let lo = lookback_start(t, c)->0;
    assert(0 <= lo);
    lemma_byte_len_split(t, lo, x, c);
    lemma_byte_len_ge_len(t.subrange(lo, x));
    if byte_len(t.take(c)) <= sync_window() {
        assert(t.take(c) == t.subrange(0, c));
    }
}

proof fn lemma_lookahead_gt(t: Seq<char>, c: int, y: int)
    requires
        sync_window_valid(t, c),
        c <= y < t.len(),
        byte_len(t.subrange(c, y + 1)) <= sync_window(),
    ensures
        y < lookahead_end(t, c)->0,
{
    if byte_len(t.subrange(c, t.len() as int)) > sync_window() {
        let r = lookahead_end(t, c)->0;
        if r <= y {
            lemma_byte_len_split(t, c, r, y + 1);
            lemma_byte_len_ge_len(t.subrange(r, y + 1));
        }
    }
}

proof fn lemma_lookahead_bound(t: Seq<char>, c: int, y: int)
    requires
        sync_window_valid(t, c),
        c <= y < lookahead_end(t, c)->0,
    ensures
        byte_len(t.subrange(c, y + 1)) <= sync_window(),
{
    let r = lookahead_end(t, c)->0;
    assert(r <= t.len());
    lemma_byte_len_split(t, c, y + 1, r);
    lemma_byte_len_ge_len(t.subrange(y + 1, r));
}

proof fn lemma_last_stop_shape(t: Seq<char>, lo: int, hi: int)
    requires
        hi <= t.len(),
    ensures
        last_stop(t, lo, hi) matches Some(x) ==> lo <= x < hi && is_brace_or_nl(t[x]) && (forall|y: int|
            x < y < hi ==> !is_brace_or_nl(#[trigger] t[y])),
    decreases hi - lo,
{
    if hi > lo && !is_brace_or_nl(t[hi - 1]) {
        lemma_last_stop_shape(t, lo, hi - 1);
    }
}

proof fn lemma_last_stop_at(t: Seq<char>, lo: int, hi: int, x: int)
    requires
        lo <= x < hi <= t.len(),
        is_brace_or_nl(t[x]),
        forall|y: int| x < y < hi ==> !is_brace_or_nl(#[trigger] t[y]),
    ensures
        last_stop(t, lo, hi) == Some(x),
    decreases hi - lo,
{
    if hi - 1 != x {
        assert(!is_brace_or_nl(t[hi - 1]));
        lemma_last_stop_at(t, lo, hi - 1, x);
    }
}

proof fn lemma_first_stop_shape(t: Seq<char>, lo: int, hi: int)
    requires
        0 <= lo,
        hi <= t.len(),
    ensures
        first_stop(t, lo, hi) matches Some(x) ==> lo <= x < hi && is_brace_or_nl(t[x]) && (forall|y: int|
            lo <= y < x ==> !is_brace_or_nl(#[trigger] t[y])),
    decreases hi - lo,
{
    if hi > lo && !is_brace_or_nl(t[lo]) {
        lemma_first_stop_shape(t, lo + 1, hi);
    }
}

proof fn lemma_first_stop_at(t: Seq<char>, lo: int, hi: int, x: int)
    requires
        0 <= lo <= x < hi <= t.len(),
        is_brace_or_nl(t[x]),
        forall|y: int| lo <= y < x ==> !is_brace_or_nl(#[trigger] t[y]),
    ensures
        first_stop(t, lo, hi) == Some(x),
    decreases hi - lo,
{
    if lo != x {
        assert(!is_brace_or_nl(t[lo]));
        lemma_first_stop_at(t, lo + 1, hi, x);
    }
}

/// Two texts that agree on their first `l` characters.
pub open spec fn agree_below(t: Seq<char>, t2: Seq<char>, l: int) -> bool {
    0 <= l <= t.len() && l <= t2.len() && t.take(l) == t2.take(l)
}

proof fn lemma_agree_occurs(t: Seq<char>, t2: Seq<char>, l: int, p: Seq<char>, j: int)
    requires
        agree_below(t, t2, l),
        0 <= j,
        j + p.len() <= l,
    ensures
        occurs_at(t, p, j) == occurs_at(t2, p, j),
{
    assert(t.subrange(j, j + p.len()) == t.take(l).subrange(j, j + p.len()));
    assert(t2.subrange(j, j + p.len()) == t2.take(l).subrange(j, j + p.len()));
}

proof fn lemma_agree_find(t: Seq<char>, t2: Seq<char>, l: int, p: Seq<char>, from: int)
    requires
        agree_below(t, t2, l),
        0 <= from,
        find_from(t, p, from) matches Some(x) && x + p.len() <= l,
    ensures
        find_from(t2, p, from) == find_from(t, p, from),
{
    let x = find_from(t, p, from)->0;
    lemma_find_from_props(t, p, from);
    lemma_find_from_props(t2, p, from);
    lemma_agree_occurs(t, t2, l, p, x);
    match find_from(t2, p, from) {
        Some(y) => {
            if y < x {
                lemma_agree_occurs(t, t2, l, p, y);
            }
            if y > x {
                assert(!occurs_at(t2, p, x));
            }
        },
        None => {
            assert(!occurs_at(t2, p, x));
        },
    }
}

pub open spec fn env_begin() -> Seq<char> {
    "\\begin{"@
}

pub open spec fn env_end() -> Seq<char> {
    "\\end{"@
}

/// No `\begin{` of `t2` starts in `[from, y]` when none of `t` does, `\end{` stands at
/// `y` in `t2`, and the texts agree up to its end.
proof fn lemma_agree_no_begin(t: Seq<char>, t2: Seq<char>, l: int, from: int, y: int)
    requires
        agree_below(t, t2, l),
        0 <= from <= y,
        y + 5 <= l,
        occurs_at(t2, env_end(), y),
        forall|j: int| from <= j <= y ==> !occurs_at(t, env_begin(), j),
    ensures
        forall|j: int| from <= j <= y ==> !occurs_at(t2, env_begin(), j),
{
    reveal_strlit("\\begin{");
    reveal_strlit("\\end{");
    assert forall|j: int| from <= j <= y implies !occurs_at(t2, env_begin(), j) by {
        if j + 7 <= l {
            lemma_agree_occurs(t, t2, l, env_begin(), j);
        } else if occurs_at(t2, env_begin(), j) {
            assert(t2.subrange(j, j + 7)[1] == 'b');
            assert(t2.subrange(y, y + 5)[0] == '\\');
            assert(t2.subrange(y, y + 5)[1] == 'e');
            if j == y {
                assert(t2[y + 1] == 'b');
            } else {
                assert(j == y - 1);
                assert(t2[y] == 'b');
            }
        }
    }
}

/// A `\begin{` and an `\end{` never overlap.
proof fn lemma_begin_end_apart(t: Seq<char>, b: int, e: int)
    requires
        occurs_at(t, env_begin(), b),
        occurs_at(t, env_end(), e),
        b < e,
    ensures
        b + 7 <= e,
{
    reveal_strlit("\\begin{");
    reveal_strlit("\\end{");
    if e < b + 7 {
        assert(t.subrange(e, e + 5)[0] == '\\');
        assert(t[e] == '\\');
        assert(t.subrange(b, b + 7)[e - b] == t[e]);
    }
}

proof fn lemma_fwd_shape(t: Seq<char>, name: Seq<char>, d: int, from: int)
    requires
        0 <= from,
        fwd_env(t, name, d, from) is Some,
    ensures
        ({
            let r = fwd_env(t, name, d, from)->0;
            &&& from + 5 <= r.0
            &&& occurs_at(t, env_end(), r.0 - 5)
            &&& retag(t, name, r.0) == Some(r)
        }),
    decreases t.len() + 10 - from,
{
    reveal_strlit("\\begin{");
    reveal_strlit("\\end{");
    lemma_find_from_props(t, env_begin(), from);
    lemma_find_from_props(t, env_end(), from);
    match (find_from(t, env_begin(), from), find_from(t, env_end(), from)) {
        (Some(b), Some(e)) => {
            if b < e {
                lemma_fwd_shape(t, name, d + 1, b + 7);
            } else if d - 1 != 0 {
                lemma_fwd_shape(t, name, d - 1, e + 5);
            }
        },
        (Some(b), None) => {
            lemma_fwd_shape(t, name, d + 1, b + 7);
        },
        (None, Some(e)) => {
            if d - 1 != 0 {
                lemma_fwd_shape(t, name, d - 1, e + 5);
            }
        },
        (None, None) => {},
    }
}

proof fn lemma_fwd_agree(t: Seq<char>, t2: Seq<char>, name: Seq<char>, d: int, from: int)
    requires
        0 <= from,
        fwd_env(t, name, d, from) is Some,
        agree_below(t, t2, (fwd_env(t, name, d, from)->0).0),
    ensures
        fwd_env(t2, name, d, from) == retag(t2, name, (fwd_env(t, name, d, from)->0).0),
    decreases t.len() + 10 - from,
{
    reveal_strlit("\\begin{");
    reveal_strlit("\\end{");
    let l = (fwd_env(t, name, d, from)->0).0;
    lemma_fwd_shape(t, name, d, from);
    lemma_find_from_props(t, env_begin(), from);
    lemma_find_from_props(t, env_end(), from);
    lemma_find_from_props(t2, env_begin(), from);
    lemma_find_from_props(t2, env_end(), from);
    let fe = find_from(t, env_end(), from);
    assert(fe is Some);
    let e = fe->0;
    assert(e <= l - 5);
    lemma_agree_find(t, t2, l, env_end(), from);
    lemma_agree_occurs(t, t2, l, env_end(), e);
    match find_from(t, env_begin(), from) {
        Some(b) => {
            if b < e {
                lemma_begin_end_apart(t, b, e);
                lemma_agree_find(t, t2, l, env_begin(), from);
                lemma_fwd_shape(t, name, d + 1, b + 7);
                lemma_fwd_agree(t, t2, name, d + 1, b + 7);
            } else {
                assert(b != e) by {
                    if b == e {
                        assert(t.subrange(b, b + 7)[1] == t[b + 1]);
                        assert(t.subrange(e, e + 5)[1] == t[e + 1]);
                    }
                }
                lemma_agree_no_begin(t, t2, l, from, e);
                if d - 1 != 0 {
                    lemma_fwd_shape(t, name, d - 1, e + 5);
                    lemma_fwd_agree(t, t2, name, d - 1, e + 5);
                }
            }
        },
        None => {
            lemma_agree_no_begin(t, t2, l, from, e);
            if d - 1 != 0 {
                lemma_fwd_shape(t, name, d - 1, e + 5);
                lemma_fwd_agree(t, t2, name, d - 1, e + 5);
            }
        },
    }
}

proof fn lemma_retag_settled(t: Seq<char>, name: Seq<char>, l: int, me: int)
    requires
        0 <= l <= me < t.len(),
        t[me] == '}',
        forall|k: int| 0 <= k < name.len() ==> name[k] != '}',
    ensures
        retag(t.take(l) + name + t.skip(me), name, l) is None,
{
    let t2 = t.take(l) + name + t.skip(me);
    let rest = t2.subrange(l, t2.len() as int);
    assert(rest =~= name + t.skip(me));
    assert(rest[name.len() as int] == '}');
    assert forall|j: int| 0 <= j < name.len() implies rest[j] != '}' by {
        assert(rest[j] == name[j]);
    }
    crate::text::lemma_first_index_of_unique(rest, '}', name.len() as int);
    assert(t2.subrange(l, l + name.len()) =~= name);
}

/// The edit that `spec_sync_env_edits` proposes, applied to `t`.
pub open spec fn sync_applied(t: Seq<char>, e: (int, int, Seq<char>)) -> Seq<char> {
    t.take(e.0) + e.2 + t.skip(e.1)
}

/// Where the cursor `c` stands once the edit `e` is applied.
pub open spec fn sync_moved(c: int, e: (int, int, Seq<char>)) -> int {
    if e.1 <= c {
        c - (e.1 - e.0) + e.2.len()
    } else {
        c
    }
}

/// The facts `spec_sync_env_edits` rests on: the braces around the cursor and the name.
proof fn lemma_sync_setup(t: Seq<char>, c: int)
    requires
        sync_window_valid(t, c),
        spec_sync_env_edits(t, c) is Some,
    ensures
        ({
            let lo = lookback_start(t, c)->0;
            let hi = lookahead_end(t, c)->0;
            let bs = last_stop(t, lo, c)->0;
            let be = first_stop(t, c, hi)->0;
            &&& 0 <= lo <= bs < c <= be < hi <= t.len()
            &&& last_stop(t, lo, c) is Some && first_stop(t, c, hi) is Some
            &&& t[bs] == '{' && t[be] == '}'
            &&& forall|y: int| bs < y < be ==> !is_brace_or_nl(#[trigger] t[y])
        }),
{
    let lo = lookback_start(t, c)->0;
    let hi = lookahead_end(t, c)->0;
    assert(lo <= c) by {
        if byte_len(t.take(c)) > sync_window() {
        }
    }
    assert(c <= hi && hi <= t.len());
    lemma_last_stop_shape(t, lo, c);
    lemma_first_stop_shape(t, c, hi);
    if lo < 0 {
    }
}

proof fn lemma_sync_settles_begin(t: Seq<char>, c: int)
    requires
        sync_window_valid(t, c),
        spec_sync_env_edits(t, c) is Some,
        sync_window_valid(sync_applied(t, spec_sync_env_edits(t, c)->0), sync_moved(c, spec_sync_env_edits(t, c)->0)),
        "\\begin"@.is_suffix_of(t.take(last_stop(t, lookback_start(t, c)->0, c)->0)),
    ensures
        ({
            let e = spec_sync_env_edits(t, c)->0;
            &&& t.subrange(e.0, e.1) != e.2
            &&& spec_sync_env_edits(sync_applied(t, e), sync_moved(c, e)) is None
        }),
{
    lemma_sync_setup(t, c);
    let lo = lookback_start(t, c)->0;
    let hi = lookahead_end(t, c)->0;
    let bs = last_stop(t, lo, c)->0;
    let be = first_stop(t, c, hi)->0;
    let name = t.subrange(bs + 1, be);
    let e = spec_sync_env_edits(t, c)->0;
    assert(e == fwd_env(t, name, 1, be + 1)->0);
    lemma_fwd_shape(t, name, 1, be + 1);
    reveal_strlit("\\end{");
    let l = e.0;
    assert(env_end().len() == 5);
    assert(l <= t.len());
    assert(retag(t, name, l) == Some(e));
    let off = crate::text::first_index_of(t.subrange(l, t.len() as int), '}')->0;
    crate::text::lemma_first_index_of(t.subrange(l, t.len() as int), '}');
    let me = e.1;
    assert(me == l + off);
    assert(t[me] == t.subrange(l, t.len() as int)[off]);
    let t2 = sync_applied(t, e);
    assert(e.2 == name);
    assert(sync_moved(c, e) == c);
    assert(t2.take(l) =~= t.take(l));
    assert(agree_below(t, t2, l));
    lemma_fwd_agree(t, t2, name, 1, be + 1);
    assert forall|k: int| 0 <= k < name.len() implies name[k] != '}' by {
        assert(name[k] == t[bs + 1 + k]);
    }
    lemma_retag_settled(t, name, l, me);
    // the same braces and name are found around the cursor in the edited text
    assert forall|k: int| 0 <= k < l implies #[trigger] t2[k] == t[k] by {
        assert(t2[k] == t2.take(l)[k]);
        assert(t[k] == t.take(l)[k]);
    }
    assert(t2.subrange(bs, c) =~= t.subrange(bs, c));
    lemma_lookback_bound(t, c, bs);
    lemma_lookback_le(t2, c, bs);
    let lo2 = lookback_start(t2, c)->0;
    lemma_last_stop_at(t2, lo2, c, bs);
    assert(t2.subrange(c, be + 1) =~= t.subrange(c, be + 1));
    lemma_lookahead_bound(t, c, be);
    lemma_lookahead_gt(t2, c, be);
    let hi2 = lookahead_end(t2, c)->0;
    lemma_first_stop_at(t2, c, hi2, be);
    assert(t2.subrange(bs + 1, be) =~= name);
    assert(t2.take(bs) =~= t.take(bs));
}

/// The character facts of the two tag openers that the following proofs use.
pub open spec fn opener_shape(p: Seq<char>) -> bool {
    &&& 5 <= p.len() <= 7
    &&& p[0] == '\\'
    &&& p[p.len() - 1] == '{'
    &&& forall|k: int| 1 <= k < p.len() ==> p[k] != '\\'
    &&& forall|k: int| 0 <= k < p.len() - 1 ==> p[k] != '{'
    &&& forall|k: int| 0 <= k < p.len() ==> p[k] != '}'
}

proof fn lemma_openers_shape()
    ensures
        opener_shape(env_begin()),
        opener_shape(env_end()),
{
    reveal_strlit("\\begin{");
    reveal_strlit("\\end{");
}

/// Position `i` of the text before the edit, in the text after it.
pub open spec fn shifted(i: int, me: int, delta: int) -> int {
    if i >= me {
        i + delta
    } else {
        i
    }
}

/// `t2` is `t` with the characters `ms..me` (no braces among them, and `t[me]` a `}`)
/// replaced by `delta + (me - ms)` characters without braces, right after a `\begin{`.
pub open spec fn edit_corresponds(t: Seq<char>, t2: Seq<char>, ms: int, me: int, delta: int) -> bool {
    &&& 7 <= ms <= me < t.len()
    &&& t2.len() == t.len() + delta
    &&& me + delta >= ms
    &&& t.take(ms) == t2.take(ms)
    &&& forall|k: int| me <= k < t.len() ==> #[trigger] t2[k + delta] == t[k]
    &&& forall|k: int| ms <= k < me ==> #[trigger] t[k] != '{' && t[k] != '}'
    &&& forall|k: int| ms <= k < me + delta ==> #[trigger] t2[k] != '{' && t2[k] != '}'
    &&& t[me] == '}'
    &&& occurs_at(t, env_begin(), ms - 7)
}

proof fn lemma_corr_basic(t: Seq<char>, t2: Seq<char>, ms: int, me: int, delta: int)
    requires
        edit_corresponds(t, t2, ms, me, delta),
    ensures
        forall|k: int| 0 <= k < ms ==> #[trigger] t2[k] == t[k],
        occurs_at(t2, env_begin(), ms - 7),
        t2[me + delta] == '}',
{
    assert forall|k: int| 0 <= k < ms implies #[trigger] t2[k] == t[k] by {
        assert(t2.take(ms)[k] == t2[k]);
        assert(t.take(ms)[k] == t[k]);
    }
    reveal_strlit("\\begin{");
    assert(t2.subrange(ms - 7, ms) =~= t.subrange(ms - 7, ms));
    assert(t2[me + delta] == t[me]);
}

/// An opener of `t` lies wholly before the edit or wholly after it.
proof fn lemma_no_straddle(t: Seq<char>, ms: int, me: int, p: Seq<char>, i: int)
    requires
        opener_shape(p),
        7 <= ms <= me < t.len(),
        t[me] == '}',
        forall|k: int| ms <= k < me ==> #[trigger] t[k] != '{' && t[k] != '}',
        occurs_at(t, env_begin(), ms - 7),
        occurs_at(t, p, i),
    ensures
        i + p.len() <= ms || i >= me,
{
    lemma_openers_shape();
    reveal_strlit("\\begin{");
    assert(env_begin().len() == 7);
    let b = ms - 7;
    if i < ms && ms < i + p.len() {
        if b < i {
            assert(t.subrange(i, i + p.len())[0] == t[i]);
            assert(p[0] == '\\');
            assert(t.subrange(b, b + 7)[i - b] == t[i]);
            assert(env_begin()[i - b] != '\\');
            assert(false);
        }
    } else if ms <= i && i < me {
        let last = i + p.len() - 1;
        assert(t.subrange(i, i + p.len())[p.len() - 1] == t[last]);
        assert(p[p.len() - 1] == '{');
        if last >= me {
            assert(t.subrange(i, i + p.len())[me - i] == t[me]);
            assert(p[me - i] != '}');
        } else {
            assert(t[last] != '{');
        }
        assert(false);
    }
}

proof fn lemma_occurs_shift(t: Seq<char>, t2: Seq<char>, ms: int, me: int, delta: int, p: Seq<char>, i: int)
    requires
        edit_corresponds(t, t2, ms, me, delta),
        i >= me,
        i + p.len() <= t.len(),
    ensures
        occurs_at(t, p, i) == occurs_at(t2, p, i + delta),
{
    assert forall|k: int| 0 <= k < p.len() implies #[trigger] t2.subrange(i + delta, i + delta + p.len())[k]
        == t.subrange(i, i + p.len())[k] by {
        assert(t2[(i + k) + delta] == t[i + k]);
    }
    assert(t2.subrange(i + delta, i + delta + p.len()) =~= t.subrange(i, i + p.len()));
}

proof fn lemma_rfind_shift(t: Seq<char>, t2: Seq<char>, ms: int, me: int, delta: int, p: Seq<char>, to: int)
    requires
        edit_corresponds(t, t2, ms, me, delta),
        opener_shape(p),
        me <= to <= t.len(),
    ensures
        rfind_before(t2, p, to + delta) == match rfind_before(t, p, to) {
            Some(i) => Some(shifted(i, me, delta)),
            None => None,
        },
{
    lemma_corr_basic(t, t2, ms, me, delta);
    assert(agree_below(t, t2, ms));
    lemma_rfind_before_props(t, p, to);
    lemma_rfind_before_props(t2, p, to + delta);
    assert forall|j: int| 0 <= j && j + p.len() <= to + delta && occurs_at(t2, p, j) implies (j >= me + delta
        && occurs_at(t, p, j - delta) && j - delta + p.len() <= to) || (j + p.len() <= ms && occurs_at(t, p, j)) by {
        lemma_no_straddle(t2, ms, me + delta, p, j);
        if j >= me + delta {
            lemma_occurs_shift(t, t2, ms, me, delta, p, j - delta);
        } else {
            lemma_agree_occurs(t, t2, ms, p, j);
        }
    }
    match rfind_before(t, p, to) {
        Some(i) => {
            lemma_no_straddle(t, ms, me, p, i);
            let si = shifted(i, me, delta);
            if i >= me {
                lemma_occurs_shift(t, t2, ms, me, delta, p, i);
            } else {
                lemma_agree_occurs(t, t2, ms, p, i);
            }
            assert(occurs_at(t2, p, si));
            match rfind_before(t2, p, to + delta) {
                Some(k) => {
                    if k > si {
                        if k >= me + delta {
                            assert(k - delta > i);
                        } else {
                            assert(k > i);
                        }
                    }
                },
                None => {},
            }
        },
        None => {
            match rfind_before(t2, p, to + delta) {
                Some(k) => {},
                None => {},
            }
        },
    }
}

proof fn lemma_back_shape(t: Seq<char>, name: Seq<char>, d: int, to: int)
    requires
        back_env(t, name, d, to) is Some,
    ensures
        ({
            let r = back_env(t, name, d, to)->0;
            &&& 7 <= r.0 <= to
            &&& occurs_at(t, env_begin(), r.0 - 7)
            &&& retag(t, name, r.0) == Some(r)
        }),
    decreases to,
{
    reveal_strlit("\\begin{");
    reveal_strlit("\\end{");
    lemma_rfind_before_props(t, env_begin(), to);
    lemma_rfind_before_props(t, env_end(), to);
    match (rfind_before(t, env_begin(), to), rfind_before(t, env_end(), to)) {
        (Some(b), Some(e)) => {
            if e > b {
                lemma_back_shape(t, name, d + 1, e);
            } else if d - 1 != 0 {
                lemma_back_shape(t, name, d - 1, b);
            }
        },
        (Some(b), None) => {
            if d - 1 != 0 {
                lemma_back_shape(t, name, d - 1, b);
            }
        },
        (None, Some(e)) => {
            lemma_back_shape(t, name, d + 1, e);
        },
        (None, None) => {},
    }
}

proof fn lemma_back_agree(t: Seq<char>, t2: Seq<char>, name: Seq<char>, d: int, to: int, me: int, delta: int)
    requires
        back_env(t, name, d, to) is Some,
        edit_corresponds(t, t2, (back_env(t, name, d, to)->0).0, me, delta),
        me <= to <= t.len(),
    ensures
        back_env(t2, name, d, to + delta) == retag(t2, name, (back_env(t, name, d, to)->0).0),
    decreases to,
{
    reveal_strlit("\\begin{");
    reveal_strlit("\\end{");
    lemma_openers_shape();
    let ms = (back_env(t, name, d, to)->0).0;
    lemma_back_shape(t, name, d, to);
    lemma_rfind_before_props(t, env_begin(), to);
    lemma_rfind_before_props(t, env_end(), to);
    lemma_rfind_shift(t, t2, ms, me, delta, env_begin(), to);
    lemma_rfind_shift(t, t2, ms, me, delta, env_end(), to);
    match (rfind_before(t, env_begin(), to), rfind_before(t, env_end(), to)) {
        (Some(b), Some(e)) => {
            lemma_no_straddle(t, ms, me, env_begin(), b);
            lemma_no_straddle(t, ms, me, env_end(), e);
            assert(e != b) by {
                if e == b {
                    assert(t.subrange(b, b + 7)[1] == t[b + 1]);
                    assert(t.subrange(e, e + 5)[1] == t[e + 1]);
                }
            }
            if e > b {
                lemma_back_shape(t, name, d + 1, e);
                lemma_back_agree(t, t2, name, d + 1, e, me, delta);
            } else if d - 1 != 0 {
                lemma_back_shape(t, name, d - 1, b);
                lemma_back_agree(t, t2, name, d - 1, b, me, delta);
            }
        },
        (Some(b), None) => {
            lemma_no_straddle(t, ms, me, env_begin(), b);
            if d - 1 != 0 {
                lemma_back_shape(t, name, d - 1, b);
                lemma_back_agree(t, t2, name, d - 1, b, me, delta);
            }
        },
        (None, Some(e)) => {
            lemma_no_straddle(t, ms, me, env_end(), e);
            lemma_back_shape(t, name, d + 1, e);
            lemma_back_agree(t, t2, name, d + 1, e, me, delta);
        },
        (None, None) => {},
    }
}

#[verifier::spinoff_prover]
proof fn lemma_end_edit(t: Seq<char>, c: int)
    requires
        sync_window_valid(t, c),
        spec_sync_env_edits(t, c) is Some,
        !t.subrange((spec_sync_env_edits(t, c)->0).0, (spec_sync_env_edits(t, c)->0).1).contains('{'),
        !"\\begin"@.is_suffix_of(t.take(last_stop(t, lookback_start(t, c)->0, c)->0)),
    ensures
        ({
            let lo = lookback_start(t, c)->0;
            let hi = lookahead_end(t, c)->0;
            let bs = last_stop(t, lo, c)->0;
            let be = first_stop(t, c, hi)->0;
            let name = t.subrange(bs + 1, be);
            let e = spec_sync_env_edits(t, c)->0;
            let delta = name.len() - (e.1 - e.0);
            &&& 4 <= bs
            &&& "\\end"@.is_suffix_of(t.take(bs))
            &&& rfind_before(t, "\\end"@, bs) == Some(bs - 4)
            &&& e == back_env(t, name, 1, bs - 4)->0
            &&& e.2 == name
            &&& e.1 < bs - 4
            &&& t.subrange(e.0, e.1) != e.2
            &&& edit_corresponds(t, sync_applied(t, e), e.0, e.1, delta)
            &&& forall|k: int| 0 <= k < name.len() ==> name[k] != '}'
        }),
{
    reveal_strlit("\\end");
    reveal_strlit("\\begin");
    reveal_strlit("\\end{");
    lemma_sync_setup(t, c);
    let lo = lookback_start(t, c)->0;
    let hi = lookahead_end(t, c)->0;
    let bs = last_stop(t, lo, c)->0;
    let be = first_stop(t, c, hi)->0;
    let name = t.subrange(bs + 1, be);
    let e = spec_sync_env_edits(t, c)->0;
    assert("\\end"@.is_suffix_of(t.take(bs)));
    // the `\end` just before the brace
    let kw = "\\end"@;
    assert(kw.len() == 4);
    assert(occurs_at(t, kw, bs - 4)) by {
        assert(t.take(bs).subrange(bs - 4, bs) =~= t.subrange(bs - 4, bs));
    }
    lemma_rfind_before_props(t, kw, bs);
    let start = bs - 4;
    assert(rfind_before(t, kw, bs) == Some(start));
    assert(e == back_env(t, name, 1, start)->0);
    lemma_back_shape(t, name, 1, start);
    let ms = e.0;
    let me = e.1;
    let off = crate::text::first_index_of(t.subrange(ms, t.len() as int), '}')->0;
    crate::text::lemma_first_index_of(t.subrange(ms, t.len() as int), '}');
    assert(me == ms + off);
    assert(t[me] == t.subrange(ms, t.len() as int)[off]);
    assert(e.2 == name);
    // nothing between the two names holds a brace, so the partner's name ends before `\end`
    assert forall|k: int| ms <= k < me implies #[trigger] t[k] != '{' && t[k] != '}' by {
        assert(t.subrange(ms, t.len() as int)[k - ms] == t[k]);
        if t[k] == '{' {
            assert(t.subrange(ms, me)[k - ms] == t[k]);
            assert(t.subrange(ms, me).contains('{'));
        }
    }
    assert(me < start) by {
        if me >= bs {
            if me > bs {
                assert(t[bs] == '{');
            }
        } else if me >= start {
            assert(t.subrange(bs - 4, bs)[me - start] == t[me]);
            assert(kw[me - start] != '}');
        }
    }
    let delta = name.len() - (me - ms);
    let t2 = sync_applied(t, e);
    assert(t2.len() == t.len() + delta);
    assert forall|k: int| me <= k < t.len() implies #[trigger] t2[k + delta] == t[k] by {
        assert(t2[k + delta] == t.skip(me)[k - me]);
    }
    assert forall|k: int| 0 <= k < name.len() implies name[k] != '{' && name[k] != '}' by {
        assert(name[k] == t[bs + 1 + k]);
    }
    assert forall|k: int| ms <= k < me + delta implies #[trigger] t2[k] != '{' && t2[k] != '}' by {
        assert(t2[k] == name[k - ms]);
    }
    assert(t2.take(ms) =~= t.take(ms));
    assert(edit_corresponds(t, t2, ms, me, delta));
    assert forall|k: int| 0 <= k < name.len() implies name[k] != '}' by {
        assert(name[k] == t[bs + 1 + k]);
    }
}

#[verifier::spinoff_prover]
#[verifier::rlimit(40)]
proof fn lemma_sync_settles_end(t: Seq<char>, c: int)
    requires
        sync_window_valid(t, c),
        spec_sync_env_edits(t, c) is Some,
        !t.subrange((spec_sync_env_edits(t, c)->0).0, (spec_sync_env_edits(t, c)->0).1).contains('{'),
        sync_window_valid(sync_applied(t, spec_sync_env_edits(t, c)->0), sync_moved(c, spec_sync_env_edits(t, c)->0)),
        !"\\begin"@.is_suffix_of(t.take(last_stop(t, lookback_start(t, c)->0, c)->0)),
    ensures
        ({
            let e = spec_sync_env_edits(t, c)->0;
            &&& t.subrange(e.0, e.1) != e.2
            &&& spec_sync_env_edits(sync_applied(t, e), sync_moved(c, e)) is None
        }),
{
    reveal_strlit("\\end");
    reveal_strlit("\\begin");
    lemma_sync_setup(t, c);
    lemma_end_edit(t, c);
    let lo = lookback_start(t, c)->0;
    let hi = lookahead_end(t, c)->0;
    let bs = last_stop(t, lo, c)->0;
    let be = first_stop(t, c, hi)->0;
    let name = t.subrange(bs + 1, be);
    let e = spec_sync_env_edits(t, c)->0;
    let ms = e.0;
    let me = e.1;
    let kw = "\\end"@;
    let start = bs - 4;
    let delta = name.len() - (me - ms);
    let t2 = sync_applied(t, e);
    lemma_back_shape(t, name, 1, start);
    lemma_back_agree(t, t2, name, 1, start, me, delta);
    assert forall|k: int| 0 <= k < name.len() implies name[k] != '}' by {
        assert(name[k] == t[bs + 1 + k]);
    }
    lemma_retag_settled(t, name, ms, me);
    // around the moved cursor, the edited text holds the same braces and name
    let c2 = c + delta;
    assert(sync_moved(c, e) == c2);
    assert(t2.subrange(bs + delta, c2) =~= t.subrange(bs, c)) by {
        assert forall|k: int| 0 <= k < c - bs implies #[trigger] t2.subrange(bs + delta, c2)[k] == t.subrange(bs, c)[k] by {
            assert(t2[(bs + k) + delta] == t[bs + k]);
        }
    }
    lemma_lookback_bound(t, c, bs);
    lemma_lookback_le(t2, c2, bs + delta);
    let lo2 = lookback_start(t2, c2)->0;
    assert(t2[bs + delta] == t[bs]);
    assert forall|y: int| bs + delta < y < c2 implies !is_brace_or_nl(#[trigger] t2[y]) by {
        assert(t2[(y - delta) + delta] == t[y - delta]);
    }
    lemma_last_stop_at(t2, lo2, c2, bs + delta);
    assert(t2.subrange(c2, be + delta + 1) =~= t.subrange(c, be + 1)) by {
        assert forall|k: int| 0 <= k < be + 1 - c implies #[trigger] t2.subrange(c2, be + delta + 1)[k] == t.subrange(c, be + 1)[k] by {
            assert(t2[(c + k) + delta] == t[c + k]);
        }
    }
    lemma_lookahead_bound(t, c, be);
    lemma_lookahead_gt(t2, c2, be + delta);
    let hi2 = lookahead_end(t2, c2)->0;
    assert(t2[be + delta] == t[be]);
    assert forall|y: int| c2 <= y < be + delta implies !is_brace_or_nl(#[trigger] t2[y]) by {
        assert(t2[(y - delta) + delta] == t[y - delta]);
    }
    lemma_first_stop_at(t2, c2, hi2, be + delta);
    assert(t2.subrange(bs + delta + 1, be + delta) =~= name) by {
        assert forall|k: int| 0 <= k < be - bs - 1 implies #[trigger] t2.subrange(bs + delta + 1, be + delta)[k] == name[k] by {
            assert(t2[(bs + 1 + k) + delta] == t[bs + 1 + k]);
        }
    }
    let before2 = t2.take(bs + delta);
    assert(before2.subrange(bs + delta - 4, bs + delta) =~= t.subrange(bs - 4, bs)) by {
        assert forall|k: int| 0 <= k < 4 implies #[trigger] before2.subrange(bs + delta - 4, bs + delta)[k] == t.subrange(bs - 4, bs)[k] by {
            assert(t2[(bs - 4 + k) + delta] == t[bs - 4 + k]);
        }
    }
    assert(kw.is_suffix_of(before2));
    assert(!"\\begin"@.is_suffix_of(before2)) by {
        let bg = "\\begin"@;
        assert(bg.len() == 6 && bg[5] == 'n');
        assert(kw[3] == 'd');
        if bg.is_suffix_of(before2) {
            assert(before2.subrange(before2.len() - 6, before2.len() as int)[5] == before2[before2.len() - 1]);
            assert(before2.subrange(bs + delta - 4, bs + delta)[3] == before2[before2.len() - 1]);
        }
    }
    assert(occurs_at(t2, kw, bs + delta - 4)) by {
        assert(t2.subrange(bs + delta - 4, bs + delta) =~= before2.subrange(bs + delta - 4, bs + delta));
    }
    lemma_rfind_before_props(t2, kw, bs + delta);
    assert(rfind_before(t2, kw, bs + delta) == Some(start + delta));
}

/// Applying the edit that keeps a `\begin`/`\end` pair in sync leaves nothing more to sync:
/// the edit renames the partner (its old name differs from the new one), and the text it
/// gives, with the cursor moved along, has no edit left. This holds when the partner's
/// old name holds no `{`, and where the byte windows around the moved cursor fall on
/// character boundaries (elsewhere the search is not defined).
pub proof fn lemma_sync_edit_settles(t: Seq<char>, c: int)
    requires
        sync_window_valid(t, c),
        spec_sync_env_edits(t, c) is Some,
        !t.subrange((spec_sync_env_edits(t, c)->0).0, (spec_sync_env_edits(t, c)->0).1).contains('{'),
        sync_window_valid(sync_applied(t, spec_sync_env_edits(t, c)->0), sync_moved(c, spec_sync_env_edits(t, c)->0)),
    ensures
        ({
            let e = spec_sync_env_edits(t, c)->0;
            &&& t.subrange(e.0, e.1) != e.2
            &&& spec_sync_env_edits(sync_applied(t, e), sync_moved(c, e)) is None
        }),
{
    if "\\begin"@.is_suffix_of(t.take(last_stop(t, lookback_start(t, c)->0, c)->0)) {
        lemma_sync_settles_begin(t, c);
    } else {
        lemma_sync_settles_end(t, c);
    }
}

} // verus!
