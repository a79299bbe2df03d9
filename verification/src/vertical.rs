//! Vertical (column) editing: one caret column over a block of lines, where typed text
//! goes into every line of the block at once.
use vstd::prelude::*;
use crate::lines::{
    has_no_newline, join_lines, join_lines_exec, lemma_split_join, lemma_split_lines_props,
    lines_of, lines_view, split_lines,
};
use crate::text::{push_all, push_range};

verus! {

/// The block of lines between the anchor and the active line (both included), and the
/// caret column on each of them.
#[derive(Clone, Copy, Debug, PartialEq, Eq, Structural)]
pub struct VerticalCursor {
    pub anchor_line: usize,
    pub active_line: usize,
    pub col: usize,
}

impl VerticalCursor {
    pub open spec fn first_line(self) -> int {
        if self.anchor_line <= self.active_line {
            self.anchor_line as int
        } else {
            self.active_line as int
        }
    }

    pub open spec fn last_line(self) -> int {
        if self.anchor_line <= self.active_line {
            self.active_line as int
        } else {
            self.anchor_line as int
        }
    }

    pub open spec fn covers(self, k: int) -> bool {
        self.first_line() <= k <= self.last_line()
    }
}

/// Column `col` clamped to the length of `line`.
pub open spec fn clamp_col(line: Seq<char>, col: int) -> int {
    if col < line.len() {
        col
    } else {
        line.len() as int
    }
}

/// `t` inserted into `line` at column `col` (at the end when the line is shorter).
pub open spec fn insert_at_col(line: Seq<char>, col: int, t: Seq<char>) -> Seq<char> {
    line.take(clamp_col(line, col)) + t + line.skip(clamp_col(line, col))
}

/// The character before column `col` of `line` removed (nothing at column 0).
pub open spec fn backspace_at_col(line: Seq<char>, col: int) -> Seq<char> {
    let p = clamp_col(line, col);
    if p > 0 {
        line.take(p - 1) + line.skip(p)
    } else {
        line
    }
}

/// The text after typing `t` at the vertical cursor: `t` goes into every line of the block.
pub open spec fn vertical_insert(s: Seq<char>, vc: VerticalCursor, t: Seq<char>) -> Seq<char> {
    join_lines(
        split_lines(s).map(
            |k: int, l: Seq<char>|
                if vc.covers(k) {
                    insert_at_col(l, vc.col as int, t)
                } else {
                    l
                },
        ),
    )
}

/// The text after a backspace at the vertical cursor: each line of the block loses the
/// character before the caret column; at column 0 nothing changes.
pub open spec fn vertical_backspace(s: Seq<char>, vc: VerticalCursor) -> Seq<char> {
    if vc.col == 0 {
        s
    } else {
        join_lines(
            split_lines(s).map(
                |k: int, l: Seq<char>|
                    if vc.covers(k) {
                        backspace_at_col(l, vc.col as int)
                    } else {
                        l
                    },
            ),
        )
    }
}

/// Line `k` of the block edit: `t` inserted at the caret column when `insert`,
/// otherwise the character before the caret removed; lines outside the block unchanged.
pub open spec fn edited_line(vc: VerticalCursor, k: int, l: Seq<char>, t: Seq<char>, insert: bool) -> Seq<
    char,
> {
    if !vc.covers(k) {
        l
    } else if insert {
        insert_at_col(l, vc.col as int, t)
    } else {
        backspace_at_col(l, vc.col as int)
    }
}

/// Builds the text where each line of the block is edited: `t` inserted at the caret
/// column when `insert`, otherwise the character before the caret removed.
fn edit_block(text: &Vec<char>, vc: &VerticalCursor, t: &Vec<char>, insert: bool) -> (out: Vec<char>)
    ensures
        insert ==> out@ == vertical_insert(text@, *vc, t@),
        !insert && vc.col > 0 ==> out@ == vertical_backspace(text@, *vc),
{
    let ls = lines_of(text);
    let lo = if vc.anchor_line <= vc.active_line { vc.anchor_line } else { vc.active_line };
    let hi = if vc.anchor_line <= vc.active_line { vc.active_line } else { vc.anchor_line };
    let mut out_lines: Vec<Vec<char>> = Vec::new();
    let mut k: usize = 0;
    while k < ls.len()
        invariant
            k <= ls@.len(),
            lo as int == vc.first_line(),
            hi as int == vc.last_line(),
            out_lines@.len() == k,
            forall|j: int|
                0 <= j < k ==> #[trigger] out_lines@[j]@ == edited_line(*vc, j, ls@[j]@, t@, insert),
        decreases ls@.len() - k,
    {
        let line = &ls[k];
        let mut nl: Vec<char> = Vec::new();
        if k >= lo && k <= hi {
            let p = if vc.col < line.len() { vc.col } else { line.len() };
            if insert {
                push_range(&mut nl, line, 0, p);
                push_all(&mut nl, t);
                push_range(&mut nl, line, p, line.len());
                assert(line@.subrange(0, p as int) == line@.take(p as int));
                assert(line@.subrange(p as int, line@.len() as int) == line@.skip(p as int));
            } else if p > 0 {
                push_range(&mut nl, line, 0, p - 1);
                push_range(&mut nl, line, p, line.len());
                assert(line@.subrange(0, p - 1) == line@.take(p - 1));
                assert(line@.subrange(p as int, line@.len() as int) == line@.skip(p as int));
            } else {
                push_all(&mut nl, line);
            }
        } else {
            push_all(&mut nl, line);
        }
        proof {
            let pp = clamp_col(line@, vc.col as int);
            if vc.covers(k as int) {
                assert(k >= lo && k <= hi);
                if insert {
                    assert(nl@ == line@.take(pp) + t@ + line@.skip(pp));
                    assert(nl@ == insert_at_col(line@, vc.col as int, t@));
                } else if pp > 0 {
                    assert(nl@ == line@.take(pp - 1) + line@.skip(pp));
                    assert(nl@ == backspace_at_col(line@, vc.col as int));
                } else {
                    assert(nl@ == backspace_at_col(line@, vc.col as int));
                }
            } else {
                assert(!(k >= lo && k <= hi));
                assert(nl@ == line@);
            }
            assert(nl@ == edited_line(*vc, k as int, line@, t@, insert));
        }
        let ghost prev = out_lines@;
        out_lines.push(nl);
        proof {
            assert forall|j: int| 0 <= j < k + 1 implies #[trigger] out_lines@[j]@ == edited_line(
                *vc,
                j,
                ls@[j]@,
                t@,
                insert,
            ) by {
                if j < k {
                    assert(out_lines@[j] == prev[j]);
                }
            }
        }
        k = k + 1;
    }
    let out = join_lines_exec(&out_lines);
    proof {
        let src = split_lines(text@);
        assert(src == lines_view(ls@));
        if insert {
            assert(lines_view(out_lines@) =~= src.map(
                |k: int, l: Seq<char>|
                    if vc.covers(k) {
                        insert_at_col(l, vc.col as int, t@)
                    } else {
                        l
                    },
            ));
        } else if vc.col > 0 {
            assert(lines_view(out_lines@) =~= src.map(
                |k: int, l: Seq<char>|
                    if vc.covers(k) {
                        backspace_at_col(l, vc.col as int)
                    } else {
                        l
                    },
            ));
        }
    }
    out
}

/// Text `t` typed at the vertical cursor over `text`.
pub fn vertical_insert_exec(text: &Vec<char>, vc: &VerticalCursor, t: &Vec<char>) -> (out: Vec<char>)
    ensures
        out@ == vertical_insert(text@, *vc, t@),
{
    edit_block(text, vc, t, true)
}

/// A backspace at the vertical cursor over `text`.
pub fn vertical_backspace_exec(text: &Vec<char>, vc: &VerticalCursor) -> (out: Vec<char>)
    ensures
        out@ == vertical_backspace(text@, *vc),
{
    if vc.col == 0 {
        let mut same: Vec<char> = Vec::new();
        push_all(&mut same, text);
        return same;
    }
    let none: Vec<char> = Vec::new();
    edit_block(text, vc, &none, false)
}

// ------------------------------------------------------------------
// Law
// ------------------------------------------------------------------

proof fn lemma_line_insert_backspace(l: Seq<char>, col: int, ch: char)
    requires
        0 <= col,
        has_no_newline(l),
        ch != '\n',
    ensures
        has_no_newline(insert_at_col(l, col, seq![ch])),
        backspace_at_col(insert_at_col(l, col, seq![ch]), col + 1) == l,
{
    let p = clamp_col(l, col);
    let m = insert_at_col(l, col, seq![ch]);
    assert(m == l.take(p) + seq![ch] + l.skip(p));
    assert forall|q: int| 0 <= q < m.len() implies m[q] != '\n' by {
        if q < p {
            assert(m[q] == l[q]);
        } else if q > p {
            assert(m[q] == l[q - 1]);
        }
    }
    assert(clamp_col(m, col + 1) == p + 1);
    assert(m.take(p) == l.take(p));
    assert(m.skip(p + 1) == l.skip(p));
    assert(l.take(p) + l.skip(p) == l);
}

/// Typing one character other than a newline at the vertical cursor, then pressing
/// backspace with the caret one column further, gives back the original text.
pub proof fn lemma_insert_then_backspace(s: Seq<char>, vc: VerticalCursor, ch: char)
    requires
        ch != '\n',
        vc.col < usize::MAX,
    ensures
        vertical_backspace(
            vertical_insert(s, vc, seq![ch]),
            VerticalCursor { col: (vc.col + 1) as usize, ..vc },
        ) == s,
{
    let ls = split_lines(s);
    lemma_split_lines_props(s);
    let t = seq![ch];
    let vc2 = VerticalCursor { col: (vc.col + 1) as usize, ..vc };
    let mid = ls.map(
        |k: int, l: Seq<char>|
            if vc.covers(k) {
                insert_at_col(l, vc.col as int, t)
            } else {
                l
            },
    );
    assert forall|k: int| 0 <= k < mid.len() implies has_no_newline(#[trigger] mid[k]) by {
        assert(has_no_newline(ls[k]));
        lemma_line_insert_backspace(ls[k], vc.col as int, ch);
    }
    lemma_split_join(mid);
    assert(vertical_insert(s, vc, t) == join_lines(mid));
    let back = mid.map(
        |k: int, l: Seq<char>|
            if vc2.covers(k) {
                backspace_at_col(l, vc2.col as int)
            } else {
                l
            },
    );
    assert forall|k: int| 0 <= k < back.len() implies #[trigger] back[k] == ls[k] by {
        assert(has_no_newline(ls[k]));
        lemma_line_insert_backspace(ls[k], vc.col as int, ch);
    }
    assert(back =~= ls);
}

/// Typing at the vertical cursor never removes a line.
pub proof fn lemma_insert_keeps_lines(s: Seq<char>, vc: VerticalCursor, t: Seq<char>)
    ensures
        split_lines(vertical_insert(s, vc, t)).len() >= split_lines(s).len(),
{
    let ls = split_lines(s);
    lemma_split_lines_props(s);
    let m = ls.map(
        |k: int, l: Seq<char>|
            if vc.covers(k) {
                insert_at_col(l, vc.col as int, t)
            } else {
                l
            },
    );
    crate::lines::lemma_join_newlines(m);
    crate::lines::lemma_line_count(join_lines(m));
}

/// A backspace at the vertical cursor never removes a line.
pub proof fn lemma_backspace_keeps_lines(s: Seq<char>, vc: VerticalCursor)
    ensures
        split_lines(vertical_backspace(s, vc)).len() >= split_lines(s).len(),
{
    if vc.col > 0 {
        let ls = split_lines(s);
        lemma_split_lines_props(s);
        let m = ls.map(
            |k: int, l: Seq<char>|
                if vc.covers(k) {
                    backspace_at_col(l, vc.col as int)
                } else {
                    l
                },
        );
        crate::lines::lemma_join_newlines(m);
        crate::lines::lemma_line_count(join_lines(m));
    }
}

/// The text after `n` backspaces at the vertical cursor, the caret starting `n` columns
/// right of `vc.col` and moving one column left after each.
pub open spec fn backspaces(s: Seq<char>, vc: VerticalCursor, n: nat) -> Seq<char>
    decreases n,
{
    if n == 0 {
        s
    } else {
        backspaces(vertical_backspace(s, VerticalCursor { col: (vc.col + n) as usize, ..vc }), vc, (n - 1) as nat)
    }
}

proof fn lemma_line_insert_push(l: Seq<char>, col: int, t: Seq<char>, c: char)
    requires
        0 <= col,
        has_no_newline(l),
        has_no_newline(t),
    ensures
        has_no_newline(insert_at_col(l, col, t)),
        insert_at_col(insert_at_col(l, col, t), col + t.len(), seq![c]) == insert_at_col(l, col, t.push(c)),
{
    let p = clamp_col(l, col);
    let m = insert_at_col(l, col, t);
    assert(m == l.take(p) + t + l.skip(p));
    assert forall|q: int| 0 <= q < m.len() implies m[q] != '\n' by {
        if q < p {
            assert(m[q] == l[q]);
        } else if q < p + t.len() {
            assert(m[q] == t[q - p]);
        } else {
            assert(m[q] == l[q - t.len()]);
        }
    }
    assert(clamp_col(m, col + t.len()) == p + t.len());
    assert(m.take(p + t.len()) == l.take(p) + t);
    assert(m.skip(p + t.len()) == l.skip(p));
    assert(l.take(p) + t + seq![c] == l.take(p) + t.push(c));
}

proof fn lemma_insert_push(s: Seq<char>, vc: VerticalCursor, t: Seq<char>, c: char)
    requires
        has_no_newline(t),
        vc.col + t.len() <= usize::MAX,
    ensures
        vertical_insert(s, vc, t.push(c)) == vertical_insert(
            vertical_insert(s, vc, t),
            VerticalCursor { col: (vc.col + t.len()) as usize, ..vc },
            seq![c],
        ),
{
    let ls = split_lines(s);
    lemma_split_lines_props(s);
    let vc2 = VerticalCursor { col: (vc.col + t.len()) as usize, ..vc };
    let mid = ls.map(
        |k: int, l: Seq<char>|
            if vc.covers(k) {
                insert_at_col(l, vc.col as int, t)
            } else {
                l
            },
    );
    assert forall|k: int| 0 <= k < mid.len() implies has_no_newline(#[trigger] mid[k]) by {
        assert(has_no_newline(ls[k]));
        lemma_line_insert_push(ls[k], vc.col as int, t, c);
    }
    lemma_split_join(mid);
    assert(vertical_insert(s, vc, t) == join_lines(mid));
    let two = mid.map(
        |k: int, l: Seq<char>|
            if vc2.covers(k) {
                insert_at_col(l, vc2.col as int, seq![c])
            } else {
                l
            },
    );
    let one = ls.map(
        |k: int, l: Seq<char>|
            if vc.covers(k) {
                insert_at_col(l, vc.col as int, t.push(c))
            } else {
                l
            },
    );
    assert forall|k: int| 0 <= k < two.len() implies #[trigger] two[k] == one[k] by {
        assert(has_no_newline(ls[k]));
        lemma_line_insert_push(ls[k], vc.col as int, t, c);
    }
    assert(two =~= one);
}

proof fn lemma_insert_nothing(s: Seq<char>, vc: VerticalCursor)
    ensures
        vertical_insert(s, vc, Seq::empty()) == s,
{
    let ls = split_lines(s);
    lemma_split_lines_props(s);
    let m = ls.map(
        |k: int, l: Seq<char>|
            if vc.covers(k) {
                insert_at_col(l, vc.col as int, Seq::<char>::empty())
            } else {
                l
            },
    );
    assert forall|k: int| 0 <= k < m.len() implies #[trigger] m[k] == ls[k] by {
        let l = ls[k];
        let p = clamp_col(l, vc.col as int);
        assert(l.take(p) + Seq::<char>::empty() + l.skip(p) == l);
    }
    assert(m =~= ls);
}

/// Typing a text without line breaks at the vertical cursor, then pressing backspace once
/// per typed character (the caret moving back one column each time) gives back the
/// original text.
pub proof fn lemma_insert_then_backspaces(s: Seq<char>, vc: VerticalCursor, t: Seq<char>)
    requires
        has_no_newline(t),
        vc.col + t.len() <= usize::MAX,
    ensures
        backspaces(vertical_insert(s, vc, t), vc, t.len()) == s,
    decreases t.len(),
{
    if t.len() == 0 {
        lemma_insert_nothing(s, vc);
        assert(t == Seq::<char>::empty());
    } else {
        let t1 = t.drop_last();
        let c = t.last();
        assert(t1.push(c) == t);
        assert(has_no_newline(t1)) by {
            assert forall|q: int| 0 <= q < t1.len() implies t1[q] != '\n' by {
                assert(t1[q] == t[q]);
            }
        }
        lemma_insert_push(s, vc, t1, c);
        let x = vertical_insert(s, vc, t1);
        let vc1 = VerticalCursor { col: (vc.col + t1.len()) as usize, ..vc };
        assert(c != '\n') by {
            assert(t[t.len() - 1] == c);
        }
        lemma_insert_then_backspace(x, vc1, c);
        assert(VerticalCursor { col: (vc1.col + 1) as usize, ..vc1 } == VerticalCursor {
            col: (vc.col + t.len()) as usize,
            ..vc
        });
        lemma_insert_then_backspaces(s, vc, t1);
        let y = vertical_insert(s, vc, t);
        let vcn = VerticalCursor { col: (vc.col + t.len()) as usize, ..vc };
        assert(y == vertical_insert(x, vc1, seq![c]));
        assert(vertical_backspace(y, vcn) == x);
        assert(backspaces(y, vc, t.len()) == backspaces(vertical_backspace(y, vcn), vc, t1.len()));
    }
}

} // verus!
