//! The buffer as a sequence of lines, and the character-level edits that work on it.
use vstd::prelude::*;
use crate::text::{chars_of, push_all, push_range, string_of};

verus! {

/// `s` split at each `'\n'`; there is always at least one (possibly empty) line.
pub open spec fn split_lines(s: Seq<char>) -> Seq<Seq<char>>
    decreases s.len(),
{
    if s.len() == 0 {
        seq![Seq::empty()]
    } else {
        let r = split_lines(s.drop_last());
        if s.last() == '\n' {
            r.push(Seq::empty())
        } else {
            r.update(r.len() - 1, r.last().push(s.last()))
        }
    }
}

/// The lines joined back with `'\n'` between them.
pub open spec fn join_lines(ls: Seq<Seq<char>>) -> Seq<char>
    decreases ls.len(),
{
    if ls.len() == 0 {
        Seq::empty()
    } else if ls.len() == 1 {
        ls[0]
    } else {
        join_lines(ls.drop_last()) + seq!['\n'] + ls.last()
    }
}

/// The character index where line `k` starts: each earlier line and its `'\n'`.
pub open spec fn line_start(ls: Seq<Seq<char>>, k: int) -> int
    decreases k,
{
    if k <= 0 {
        0
    } else {
        line_start(ls, k - 1) + ls[k - 1].len() + 1
    }
}

/// (line, column) of character index `index`, searching from line `k`: the first line
/// whose end reaches `index`; `(0, 0)` when no line does.
pub open spec fn line_col_from(ls: Seq<Seq<char>>, index: int, k: int) -> (int, int)
    decreases ls.len() - k,
{
    if k < 0 || k >= ls.len() {
        (0, 0)
    } else if line_start(ls, k) + ls[k].len() >= index {
        (k, index - line_start(ls, k))
    } else {
        line_col_from(ls, index, k + 1)
    }
}

/// The line `line_col_from` reports is a line of `ls` (or line 0).
pub proof fn lemma_line_col_from_line(ls: Seq<Seq<char>>, index: int, k: int)
    requires
        ls.len() >= 1,
    ensures
        0 <= line_col_from(ls, index, k).0 < ls.len(),
    decreases ls.len() - k,
{
    if !(k < 0 || k >= ls.len()) && !(line_start(ls, k) + ls[k].len() >= index) {
        lemma_line_col_from_line(ls, index, k + 1);
    }
}

/// (line, column) of character index `index` in `s`.
pub open spec fn line_col(s: Seq<char>, index: int) -> (int, int) {
    line_col_from(split_lines(s), index, 0)
}

/// The character index of column `col` on line `line` of `s`: the column is clamped to
/// the line's length; past the last line it is the sum over all lines of their length
/// plus one.
pub open spec fn char_index(s: Seq<char>, line: int, col: int) -> int {
    let ls = split_lines(s);
    if 0 <= line < ls.len() {
        line_start(ls, line) + if col < ls[line].len() {
            col
        } else {
            ls[line].len() as int
        }
    } else {
        line_start(ls, ls.len() as int)
    }
}

pub open spec fn has_no_newline(l: Seq<char>) -> bool {
    forall|k: int| 0 <= k < l.len() ==> l[k] != '\n'
}

// ------------------------------------------------------------------
// Facts about lines
// ------------------------------------------------------------------

pub proof fn lemma_split_lines_props(s: Seq<char>)
    ensures
        split_lines(s).len() >= 1,
        forall|k: int| 0 <= k < split_lines(s).len() ==> has_no_newline(#[trigger] split_lines(s)[k]),
        join_lines(split_lines(s)) == s,
    decreases s.len(),
{
    if s.len() > 0 {
        let p = s.drop_last();
        lemma_split_lines_props(p);
        let r = split_lines(p);
        if s.last() == '\n' {
            let t = r.push(Seq::<char>::empty());
            assert(t.drop_last() == r);
            assert forall|k: int| 0 <= k < t.len() implies has_no_newline(#[trigger] t[k]) by {
                if k < r.len() {
                    assert(t[k] == r[k]);
                }
            }
            assert(join_lines(t) == join_lines(r) + seq!['\n'] + Seq::<char>::empty());
            assert(s == p.push('\n'));
        } else {
            let t = r.update(r.len() - 1, r.last().push(s.last()));
            assert forall|k: int| 0 <= k < t.len() implies has_no_newline(#[trigger] t[k]) by {
                if k < r.len() - 1 {
                    assert(t[k] == r[k]);
                } else {
                    assert(has_no_newline(r[r.len() - 1]));
                }
            }
            if r.len() == 1 {
                assert(join_lines(r) == r[0]);
                assert(join_lines(t) == t[0]);
            } else {
                assert(t.drop_last() == r.drop_last());
                assert(join_lines(t) == join_lines(r.drop_last()) + seq!['\n'] + r.last().push(s.last()));
            }
            assert(s == p.push(s.last()));
        }
    }
}

/// The number of `'\n'` in `s`.
pub open spec fn newline_count(s: Seq<char>) -> nat
    decreases s.len(),
{
    if s.len() == 0 {
        0
    } else {
        newline_count(s.drop_last()) + if s.last() == '\n' {
            1nat
        } else {
            0nat
        }
    }
}

proof fn lemma_newline_count_concat(a: Seq<char>, b: Seq<char>)
    ensures
        newline_count(a + b) == newline_count(a) + newline_count(b),
    decreases b.len(),
{
    if b.len() > 0 {
        lemma_newline_count_concat(a, b.drop_last());
        assert((a + b).drop_last() == a + b.drop_last());
    } else {
        assert(a + b == a);
    }
}

/// A text has one line more than it has line breaks.
pub proof fn lemma_line_count(s: Seq<char>)
    ensures
        split_lines(s).len() == newline_count(s) + 1,
    decreases s.len(),
{
    if s.len() > 0 {
        lemma_line_count(s.drop_last());
    }
}

/// Joining lines puts a line break between each two of them.
pub proof fn lemma_join_newlines(ls: Seq<Seq<char>>)
    requires
        ls.len() >= 1,
    ensures
        newline_count(join_lines(ls)) + 1 >= ls.len(),
    decreases ls.len(),
{
    if ls.len() > 1 {
        lemma_join_newlines(ls.drop_last());
        lemma_newline_count_concat(join_lines(ls.drop_last()), seq!['\n']);
        lemma_newline_count_concat(join_lines(ls.drop_last()) + seq!['\n'], ls.last());
        assert(newline_count(seq!['\n']) == 1) by {
            let nl = seq!['\n'];
            assert(nl.drop_last() =~= Seq::<char>::empty());
            assert(newline_count(Seq::<char>::empty()) == 0);
            assert(nl.last() == '\n');
        }
    }
}

/// Lines with no `'\n'` in them split back into themselves once joined.
pub proof fn lemma_split_join(ls: Seq<Seq<char>>)
    requires
        ls.len() >= 1,
        forall|k: int| 0 <= k < ls.len() ==> has_no_newline(#[trigger] ls[k]),
    ensures
        split_lines(join_lines(ls)) == ls,
    decreases ls.len(), ls.last().len(),
{
    let l = ls.last();
    if ls.len() == 1 && l.len() == 0 {
        assert(join_lines(ls) == Seq::<char>::empty());
        assert(ls == seq![Seq::<char>::empty()]);
    } else if l.len() > 0 {
        let shorter = ls.update(ls.len() - 1, l.drop_last());
        assert forall|k: int| 0 <= k < shorter.len() implies has_no_newline(#[trigger] shorter[k]) by {
            if k < ls.len() - 1 {
                assert(shorter[k] == ls[k]);
            } else {
                assert(has_no_newline(ls[ls.len() - 1]));
            }
        }
        lemma_split_join(shorter);
        let j = join_lines(ls);
        if ls.len() == 1 {
            assert(j == l);
            assert(join_lines(shorter) == l.drop_last());
        } else {
            assert(shorter.drop_last() == ls.drop_last());
            assert(join_lines(shorter) == join_lines(ls.drop_last()) + seq!['\n'] + l.drop_last());
        }
        assert(j.drop_last() == join_lines(shorter));
        assert(j.last() == l.last());
        assert(l.last() != '\n');
        assert(l.drop_last().push(l.last()) == l);
        assert(shorter.update(shorter.len() - 1, shorter.last().push(l.last())) =~= ls);
    } else {
        let front = ls.drop_last();
        assert forall|k: int| 0 <= k < front.len() implies has_no_newline(#[trigger] front[k]) by {
            assert(front[k] == ls[k]);
        }
        lemma_split_join(front);
        let j = join_lines(ls);
        assert(j == join_lines(front) + seq!['\n'] + Seq::<char>::empty());
        assert(j.drop_last() == join_lines(front));
        assert(l =~= Seq::<char>::empty());
        assert(front.push(Seq::<char>::empty()) =~= ls);
    }
}

/// The line starts add up: past the last line is one more than the length of the text.
pub proof fn lemma_line_start_total(ls: Seq<Seq<char>>)
    requires
        ls.len() >= 1,
    ensures
        line_start(ls, ls.len() as int) == join_lines(ls).len() + 1,
    decreases ls.len(),
{
    if ls.len() > 1 {
        let front = ls.drop_last();
        lemma_line_start_total(front);
        assert forall|j: int| 0 <= j < front.len() implies front[j] == ls[j] by {}
        lemma_line_start_prefix(ls, front, front.len() as int);
        assert(line_start(ls, ls.len() as int) == line_start(ls, front.len() as int) + ls.last().len() + 1);
        assert(join_lines(ls) == join_lines(front) + seq!['\n'] + ls.last());
    } else {
        assert(line_start(ls, 1) == line_start(ls, 0) + ls[0].len() + 1);
    }
}

proof fn lemma_line_start_prefix(ls: Seq<Seq<char>>, front: Seq<Seq<char>>, k: int)
    requires
        0 <= k <= front.len() <= ls.len(),
        forall|j: int| 0 <= j < front.len() ==> front[j] == ls[j],
    ensures
        line_start(ls, k) == line_start(front, k),
    decreases k,
{
    if k > 0 {
        lemma_line_start_prefix(ls, front, k - 1);
    }
}

pub proof fn lemma_line_start_mono(ls: Seq<Seq<char>>, j: int, k: int)
    requires
        0 <= j <= k <= ls.len(),
    ensures
        line_start(ls, j) + (k - j) <= line_start(ls, k),
        j < k ==> line_start(ls, j) + ls[j].len() + 1 <= line_start(ls, k),
    decreases k - j,
{
    if j < k {
        lemma_line_start_mono(ls, j, k - 1);
    }
}

proof fn lemma_line_col_from(ls: Seq<Seq<char>>, index: int, k: int)
    requires
        ls.len() >= 1,
        0 <= k < ls.len(),
        line_start(ls, k) <= index <= line_start(ls, ls.len() as int) - 1,
    ensures
        ({
            let (l, c) = line_col_from(ls, index, k);
            &&& k <= l < ls.len()
            &&& 0 <= c <= ls[l].len()
            &&& line_start(ls, l) + c == index
            &&& forall|j: int| k <= j < l ==> line_start(ls, j) + ls[j].len() < index
        }),
    decreases ls.len() - k,
{
    if line_start(ls, k) + ls[k].len() < index {
        if k + 1 == ls.len() {
            assert(line_start(ls, ls.len() as int) == line_start(ls, k) + ls[k].len() + 1);
        } else {
            lemma_line_col_from(ls, index, k + 1);
        }
    }
}

/// Converting a character index within the text to (line, column) and back gives the
/// same index.
pub proof fn lemma_index_round_trip(s: Seq<char>, index: int)
    requires
        0 <= index <= s.len(),
    ensures
        char_index(s, line_col(s, index).0, line_col(s, index).1) == index,
        0 <= line_col(s, index).0 < split_lines(s).len(),
        0 <= line_col(s, index).1 <= split_lines(s)[line_col(s, index).0].len(),
{
    let ls = split_lines(s);
    lemma_split_lines_props(s);
    lemma_line_start_total(ls);
    lemma_line_col_from(ls, index, 0);
}

/// Converting a (line, column) on an existing line to a character index and back gives
/// the line and the column clamped to the line's length.
pub proof fn lemma_line_col_round_trip(s: Seq<char>, line: int, col: int)
    requires
        0 <= line < split_lines(s).len(),
        0 <= col,
    ensures
        line_col(s, char_index(s, line, col)) == (line, if col < split_lines(s)[line].len() {
            col
        } else {
            split_lines(s)[line].len() as int
        }),
{
    let ls = split_lines(s);
    lemma_split_lines_props(s);
    lemma_line_start_total(ls);
    let i = char_index(s, line, col);
    lemma_line_start_mono(ls, line, ls.len() as int);
    lemma_line_start_mono(ls, 0, line);
    lemma_line_col_from(ls, i, 0);
    let (l, c) = line_col_from(ls, i, 0);
    if l < line {
        lemma_line_start_mono(ls, l, line);
    } else if l > line {
        lemma_line_start_mono(ls, line, l);
    }
}

// ------------------------------------------------------------------
// Executable
// ------------------------------------------------------------------

pub open spec fn lines_view(v: Seq<Vec<char>>) -> Seq<Seq<char>> {
    v.map_values(|l: Vec<char>| l@)
}

/// The lines of `v`.
pub fn lines_of(v: &Vec<char>) -> (ls: Vec<Vec<char>>)
    ensures
        lines_view(ls@) == split_lines(v@),
        ls@.len() >= 1,
{
    let mut ls: Vec<Vec<char>> = Vec::new();
    let mut cur: Vec<char> = Vec::new();
    let mut i: usize = 0;
    while i < v.len()
        invariant
            i <= v@.len(),
            lines_view(ls@).push(cur@) == split_lines(v@.take(i as int)),
        decreases v@.len() - i,
    {
        let c = v[i];
        let ghost r = split_lines(v@.take(i as int));
        assert(v@.take(i + 1).drop_last() == v@.take(i as int));
        assert(v@.take(i + 1).last() == c);
        if c == '\n' {
            let done = cur;
            assert(lines_view(ls@.push(done)) == lines_view(ls@).push(done@));
            ls.push(done);
            cur = Vec::new();
            assert(lines_view(ls@).push(cur@) == r.push(Seq::<char>::empty()));
        } else {
            cur.push(c);
            assert(lines_view(ls@).push(cur@) == r.update(r.len() - 1, r.last().push(c)));
        }
        i = i + 1;
    }
    assert(v@.take(v@.len() as int) == v@);
    assert(lines_view(ls@.push(cur)) == lines_view(ls@).push(cur@));
    ls.push(cur);
    ls
}

/// The lines joined with `'\n'`.
pub fn join_lines_exec(ls: &Vec<Vec<char>>) -> (v: Vec<char>)
    ensures
        v@ == join_lines(lines_view(ls@)),
{
    let mut v: Vec<char> = Vec::new();
    let mut k: usize = 0;
    while k < ls.len()
        invariant
            k <= ls@.len(),
            v@ == join_lines(lines_view(ls@).take(k as int)),
        decreases ls@.len() - k,
    {
        let ghost lv = lines_view(ls@);
        assert(lv.take(k + 1).drop_last() == lv.take(k as int));
        assert(lv.take(k + 1).last() == ls@[k as int]@);
        if k > 0 {
            v.push('\n');
        } else {
            assert(lv.take(1) == seq![ls@[0]@]);
        }
        push_all(&mut v, &ls[k]);
        k = k + 1;
    }
    assert(lines_view(ls@).take(ls@.len() as int) == lines_view(ls@));
    v
}

/// Splits `s` into the part before character `char_idx` and the rest; an index past the
/// end splits after the last character.
pub fn split_at_char_index(s: &str, char_idx: usize) -> (r: (String, String))
    ensures
        r.0@ == s@.take(if char_idx < s@.len() { char_idx as int } else { s@.len() as int }),
        r.1@ == s@.skip(if char_idx < s@.len() { char_idx as int } else { s@.len() as int }),
{
    let v = chars_of(s);
    let k = if char_idx < v.len() { char_idx } else { v.len() };
    let mut left: Vec<char> = Vec::new();
    push_range(&mut left, &v, 0, k);
    let mut right: Vec<char> = Vec::new();
    push_range(&mut right, &v, k, v.len());
    assert(v@.subrange(0, k as int) == v@.take(k as int));
    assert(v@.subrange(k as int, v@.len() as int) == v@.skip(k as int));
    (string_of(&left), string_of(&right))
}

/// The characters of `s` from index `start` up to `end`, each index clamped to the end
/// of the text. The start may not come after the end.
pub fn slice_chars(s: &str, start: usize, end: usize) -> (r: String)
    requires
        (if start < s@.len() { start as int } else { s@.len() as int }) <= (if end < s@.len() {
            end as int
        } else {
            s@.len() as int
        }),
    ensures
        r@ == s@.subrange(
            if start < s@.len() { start as int } else { s@.len() as int },
            if end < s@.len() { end as int } else { s@.len() as int },
        ),
{
    let v = chars_of(s);
    let a = if start < v.len() { start } else { v.len() };
    let b = if end < v.len() { end } else { v.len() };
    let mut out: Vec<char> = Vec::new();
    push_range(&mut out, &v, a, b);
    string_of(&out)
}

} // verus!
