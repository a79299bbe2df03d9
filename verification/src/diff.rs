//! Word-level inline diff (longest common subsequence) between an original text and the
//! text an assistant proposes.
use vstd::prelude::*;
use crate::text::{chars_of, push_all, string_of, vec_eq};

verus! {

/// Whether `c` has the Unicode `Alphabetic` or `Numeric` property.
pub uninterp spec fn is_alphanumeric_char(c: char) -> bool;

/// A word character of the diff: on ASCII a Latin letter or a digit, beyond ASCII what
/// `char::is_alphanumeric` reports (the named Unicode property).
pub open spec fn is_word_char(c: char) -> bool {
    if '\u{80}' > c {
        ('a' <= c && c <= 'z') || ('A' <= c && c <= 'Z') || ('0' <= c && c <= '9')
    } else {
        is_alphanumeric_char(c)
    }
}

/// `char::is_alphanumeric`: the character is alphabetic or numeric in Unicode. On ASCII
/// characters this is exactly the Latin letters and the digits; beyond ASCII the result
/// is the named property, which this library does not spell out.
#[verifier::external_body]
fn is_alphanumeric(c: char) -> (b: bool)
    ensures
        b == is_alphanumeric_char(c),
        b == is_word_char(c),
{
    c.is_alphanumeric()
}

/// How a piece of text fares between the two versions.
#[derive(Clone, Copy, Debug, PartialEq, Eq, Structural)]
pub enum DiffKind {
    Keep,
    Insert,
    Delete,
}

/// The tokens of `s`: maximal runs of alphanumeric characters, and every other character
/// on its own.
pub open spec fn tokenize(s: Seq<char>) -> Seq<Seq<char>>
    decreases s.len(),
{
    if s.len() == 0 {
        Seq::empty()
    } else {
        let c = s.last();
        let rest = tokenize(s.drop_last());
        if is_word_char(c) && rest.len() > 0 && rest.last().len() > 0
            && is_word_char(rest.last().last()) {
            rest.update(rest.len() - 1, rest.last().push(c))
        } else {
            rest.push(seq![c])
        }
    }
}

/// Length of the longest common subsequence of `a[..i]` and `b[..j]`.
pub open spec fn lcs(a: Seq<Seq<char>>, b: Seq<Seq<char>>, i: nat, j: nat) -> nat
    decreases i, j,
{
    if i == 0 || j == 0 {
        0
    } else if a[i - 1] == b[j - 1] {
        lcs(a, b, (i - 1) as nat, (j - 1) as nat) + 1
    } else {
        let x = lcs(a, b, (i - 1) as nat, j);
        let y = lcs(a, b, i, (j - 1) as nat);
        if x >= y {
            x
        } else {
            y
        }
    }
}

/// The edit steps (kind, token index) that turn `a[..i]` into `b[..j]`, in text order.
/// An `Insert` step indexes `b`; `Keep` and `Delete` steps index `a`. Walking back from the
/// end, equal tokens are kept, and otherwise an insertion is preferred whenever it loses
/// no common token.
pub open spec fn diff_path(a: Seq<Seq<char>>, b: Seq<Seq<char>>, i: nat, j: nat) -> Seq<
    (DiffKind, int),
>
    decreases i + j,
{
    if i == 0 && j == 0 {
        Seq::empty()
    } else if i > 0 && j > 0 && a[i - 1] == b[j - 1] {
        diff_path(a, b, (i - 1) as nat, (j - 1) as nat).push((DiffKind::Keep, i - 1))
    } else if j > 0 && (i == 0 || lcs(a, b, i, (j - 1) as nat) >= lcs(a, b, (i - 1) as nat, j)) {
        diff_path(a, b, i, (j - 1) as nat).push((DiffKind::Insert, j - 1))
    } else {
        diff_path(a, b, (i - 1) as nat, j).push((DiffKind::Delete, i - 1))
    }
}

/// The text of an edit step.
pub open spec fn step_text(a: Seq<Seq<char>>, b: Seq<Seq<char>>, st: (DiffKind, int)) -> (
    DiffKind,
    Seq<char>,
) {
    (st.0, if st.0 == DiffKind::Insert {
        b[st.1]
    } else {
        a[st.1]
    })
}

/// Merges consecutive pieces of the same kind.
pub open spec fn compact(ops: Seq<(DiffKind, Seq<char>)>) -> Seq<(DiffKind, Seq<char>)>
    decreases ops.len(),
{
    if ops.len() == 0 {
        Seq::empty()
    } else {
        let r = compact(ops.drop_last());
        let op = ops.last();
        if r.len() > 0 && r.last().0 == op.0 {
            r.update(r.len() - 1, (op.0, r.last().1 + op.1))
        } else {
            r.push(op)
        }
    }
}

/// The diff of `old` against `new`.
pub open spec fn spec_diff(old: Seq<char>, new: Seq<char>) -> Seq<(DiffKind, Seq<char>)> {
    let a = tokenize(old);
    let b = tokenize(new);
    compact(diff_path(a, b, a.len(), b.len()).map_values(
        |st: (DiffKind, int)| step_text(a, b, st),
    ))
}

pub open spec fn token_views(v: Seq<Vec<char>>) -> Seq<Seq<char>> {
    v.map_values(|t: Vec<char>| t@)
}

pub open spec fn diff_view(v: Seq<(DiffKind, String)>) -> Seq<(DiffKind, Seq<char>)> {
    v.map_values(|p: (DiffKind, String)| (p.0, p.1@))
}

fn tokenize_exec(s: &str) -> (toks: Vec<Vec<char>>)
    ensures
        token_views(toks@) == tokenize(s@),
{
    let v = chars_of(s);
    let mut toks: Vec<Vec<char>> = Vec::new();
    let mut buf: Vec<char> = Vec::new();
    let mut i: usize = 0;
    while i < v.len()
        invariant
            i <= v.len(),
            forall|k: int| 0 <= k < buf@.len() ==> is_word_char(#[trigger] buf@[k]),
            buf@.len() > 0 ==> token_views(toks@).push(buf@) == tokenize(v@.take(i as int)),
            buf@.len() == 0 ==> token_views(toks@) == tokenize(v@.take(i as int)),
            toks@.len() > 0 && buf@.len() == 0 ==> (toks@.last()@.len() > 0
                && !is_word_char(toks@.last()@.last())),
        decreases v.len() - i,
    {
        let c = v[i];
        let ghost pre = v@.take(i as int);
        let ghost old_toks = token_views(toks@);
        let ghost old_buf = buf@;
        assert(v@.take(i + 1).drop_last() == pre);
        assert(v@.take(i + 1).last() == c);
        if is_alphanumeric(c) {
            buf.push(c);
            proof {
                let rest = tokenize(pre);
                if old_buf.len() > 0 {
                    assert(rest.last() == old_buf);
                    assert(rest.update(rest.len() - 1, rest.last().push(c)) == old_toks.push(buf@));
                } else {
                    assert(buf@ == seq![c]);
                    assert(rest.push(seq![c]) == old_toks.push(buf@));
                }
            }
        } else {
            if buf.len() > 0 {
                let b = buf.clone();
                proof {
                    assert(b@ == old_buf);
                    assert(token_views(toks@.push(b)) == token_views(toks@).push(b@));
                }
                toks.push(b);
                buf = Vec::new();
            }
            let mut t: Vec<char> = Vec::new();
            t.push(c);
            proof {
                assert(token_views(toks@.push(t)) == token_views(toks@).push(t@));
                assert(t@ == seq![c]);
            }
            toks.push(t);
        }
        i = i + 1;
    }
    if buf.len() > 0 {
        proof {
            assert(token_views(toks@.push(buf)) == token_views(toks@).push(buf@));
        }
        toks.push(buf);
    }
    proof {
        assert(v@.take(v.len() as int) == v@);
    }
    toks
}

/// `lcs` never exceeds the length of either prefix.
proof fn lemma_lcs_bounded(a: Seq<Seq<char>>, b: Seq<Seq<char>>, i: nat, j: nat)
    ensures
        lcs(a, b, i, j) <= i,
        lcs(a, b, i, j) <= j,
    decreases i, j,
{
    if i > 0 && j > 0 {
        lemma_lcs_bounded(a, b, (i - 1) as nat, (j - 1) as nat);
        lemma_lcs_bounded(a, b, (i - 1) as nat, j);
        lemma_lcs_bounded(a, b, i, (j - 1) as nat);
    }
}

/// The table of `lcs` values: `rows[i][j] == lcs(a, b, i, j)` for all `i <= a.len()`,
/// `j <= b.len()`.
fn lcs_table(a: &Vec<Vec<char>>, b: &Vec<Vec<char>>) -> (rows: Vec<Vec<usize>>)
    ensures
        rows@.len() == a@.len() + 1,
        forall|i: int| 0 <= i < rows@.len() ==> #[trigger] rows@[i]@.len() == b@.len() + 1,
        forall|i: int, j: int|
            0 <= i < rows@.len() && 0 <= j <= b@.len() ==> #[trigger] rows@[i]@[j] as int
                == lcs(token_views(a@), token_views(b@), i as nat, j as nat),
{
    let ghost ta = token_views(a@);
    let ghost tb = token_views(b@);
    let n = a.len();
    let m = b.len();
    let mut rows: Vec<Vec<usize>> = Vec::new();
    while rows.len() <= n
        invariant
            n == a.len(),
            m == b.len(),
            ta == token_views(a@),
            tb == token_views(b@),
            rows@.len() <= n + 1,
            forall|i: int| 0 <= i < rows@.len() ==> #[trigger] rows@[i]@.len() == m + 1,
            forall|i: int, j: int|
                0 <= i < rows@.len() && 0 <= j <= m ==> #[trigger] rows@[i]@[j] as int == lcs(
                    ta,
                    tb,
                    i as nat,
                    j as nat,
                ),
        decreases n + 1 - rows@.len(),
    {
        let i = rows.len();
        let mut row: Vec<usize> = Vec::new();
        while row.len() <= m
            invariant
                n == a.len(),
                m == b.len(),
                ta == token_views(a@),
                tb == token_views(b@),
                i == rows@.len(),
                i <= n,
                row@.len() <= m + 1,
                forall|r: int| 0 <= r < rows@.len() ==> #[trigger] rows@[r]@.len() == m + 1,
                forall|r: int, j: int|
                    0 <= r < rows@.len() && 0 <= j <= m ==> #[trigger] rows@[r]@[j] as int == lcs(
                        ta,
                        tb,
                        r as nat,
                        j as nat,
                    ),
                forall|j: int| 0 <= j < row@.len() ==> #[trigger] row@[j] as int == lcs(
                    ta,
                    tb,
                    i as nat,
                    j as nat,
                ),
            decreases m + 1 - row@.len(),
        {
            let j = row.len();
            let val: usize;
            if i == 0 || j == 0 {
                val = 0;
            } else if vec_eq(&a[i - 1], &b[j - 1]) {
                proof {
                    lemma_lcs_bounded(ta, tb, (i - 1) as nat, (j - 1) as nat);
                    assert(ta[i - 1] == a@[i - 1]@);
                    assert(tb[j - 1] == b@[j - 1]@);
                }
                let prev = rows[i - 1][j - 1];
                val = prev + 1;
            } else {
                proof {
                    assert(ta[i - 1] == a@[i - 1]@);
                    assert(tb[j - 1] == b@[j - 1]@);
                }
                let up = rows[i - 1][j];
                let left = row[j - 1];
                val = if up >= left { up } else { left };
            }
            row.push(val);
        }
        rows.push(row);
    }
    rows
}

/// One edit step found while walking back through the table.
fn back_step(
    a: &Vec<Vec<char>>,
    b: &Vec<Vec<char>>,
    rows: &Vec<Vec<usize>>,
    i: usize,
    j: usize,
) -> (r: (DiffKind, usize))
    requires
        i <= a.len(),
        j <= b.len(),
        i > 0 || j > 0,
        rows@.len() == a@.len() + 1,
        forall|k: int| 0 <= k < rows@.len() ==> #[trigger] rows@[k]@.len() == b@.len() + 1,
        forall|k: int, l: int|
            0 <= k < rows@.len() && 0 <= l <= b@.len() ==> #[trigger] rows@[k]@[l] as int == lcs(
                token_views(a@),
                token_views(b@),
                k as nat,
                l as nat,
            ),
    ensures
        diff_path(token_views(a@), token_views(b@), i as nat, j as nat) == diff_path(
            token_views(a@),
            token_views(b@),
            (if r.0 == DiffKind::Insert { i } else { (i - 1) as usize }) as nat,
            (if r.0 == DiffKind::Delete { j } else { (j - 1) as usize }) as nat,
        ).push((r.0, r.1 as int)),
        r.0 == DiffKind::Insert ==> j > 0 && r.1 == j - 1,
        r.0 != DiffKind::Insert ==> i > 0 && r.1 == i - 1,
        r.0 == DiffKind::Keep ==> j > 0,
{
    let ghost ta = token_views(a@);
    let ghost tb = token_views(b@);
    if i > 0 && j > 0 && vec_eq(&a[i - 1], &b[j - 1]) {
        proof {
            assert(ta[i - 1] == a@[i - 1]@);
            assert(tb[j - 1] == b@[j - 1]@);
        }
        (DiffKind::Keep, i - 1)
    } else {
        proof {
            if i > 0 && j > 0 {
                assert(ta[i - 1] == a@[i - 1]@);
                assert(tb[j - 1] == b@[j - 1]@);
            }
        }
        if j > 0 && (i == 0 || rows[i][j - 1] >= rows[i - 1][j]) {
            (DiffKind::Insert, j - 1)
        } else {
            (DiffKind::Delete, i - 1)
        }
    }
}

/// Word-level diff of `old` against `new`: the text split into runs of alphanumeric
/// characters and single other characters, aligned by a longest common subsequence, and
/// returned as maximal pieces that are kept, inserted or deleted, in text order.
pub fn compute_diff(old: &str, new: &str) -> (r: Vec<(DiffKind, String)>)
    ensures
        diff_view(r@) == spec_diff(old@, new@),
{
    let a = tokenize_exec(old);
    let b = tokenize_exec(new);
    let ghost ta = token_views(a@);
    let ghost tb = token_views(b@);
    let rows = lcs_table(&a, &b);
    // Walk back from the end; `rev` holds the steps found so far, last step first.
    let mut rev: Vec<(DiffKind, usize)> = Vec::new();
    let ghost mut tail: Seq<(DiffKind, int)> = Seq::empty();
    let mut i = a.len();
    let mut j = b.len();
    while i > 0 || j > 0
        invariant
            i <= a.len(),
            j <= b.len(),
            ta == token_views(a@),
            tb == token_views(b@),
            rows@.len() == a@.len() + 1,
            forall|k: int| 0 <= k < rows@.len() ==> #[trigger] rows@[k]@.len() == b@.len() + 1,
            forall|k: int, l: int|
                0 <= k < rows@.len() && 0 <= l <= b@.len() ==> #[trigger] rows@[k]@[l] as int
                    == lcs(ta, tb, k as nat, l as nat),
            diff_path(ta, tb, a.len() as nat, b.len() as nat) == diff_path(ta, tb, i as nat, j as nat)
                + tail,
            rev@.len() == tail.len(),
            forall|k: int|
                0 <= k < tail.len() ==> (#[trigger] tail[k]).0 == rev@[tail.len() - 1 - k].0
                    && tail[k].1 == rev@[tail.len() - 1 - k].1 as int,
            forall|k: int|
                0 <= k < tail.len() ==> ((#[trigger] tail[k]).0 == DiffKind::Insert ==> 0
                    <= tail[k].1 < tb.len()) && (tail[k].0 != DiffKind::Insert ==> 0 <= tail[k].1
                    < ta.len()),
        decreases i + j,
    {
        let st = back_step(&a, &b, &rows, i, j);
        proof {
            let ghost ni: nat = (if st.0 == DiffKind::Insert { i } else { (i - 1) as usize }) as nat;
            let ghost nj: nat = (if st.0 == DiffKind::Delete { j } else { (j - 1) as usize }) as nat;
            assert(diff_path(ta, tb, ni, nj).push((st.0, st.1 as int)) + tail == diff_path(
                ta,
                tb,
                ni,
                nj,
            ) + (seq![(st.0, st.1 as int)] + tail));
            tail = seq![(st.0, st.1 as int)] + tail;
        }
        rev.push(st);
        if st.0 != DiffKind::Insert {
            i = i - 1;
        }
        if st.0 != DiffKind::Delete {
            j = j - 1;
        }
    }
    proof {
        assert(diff_path(ta, tb, 0, 0) + tail == tail);
    }
    // Replay the steps in text order, merging neighbours of the same kind.
    let ghost steps = tail.map_values(|st: (DiffKind, int)| step_text(ta, tb, st));
    let mut out: Vec<(DiffKind, Vec<char>)> = Vec::new();
    let mut k: usize = 0;
    let total = rev.len();
    while k < total
        invariant
            total == rev@.len(),
            rev@.len() == tail.len(),
            k <= total,
            ta == token_views(a@),
            tb == token_views(b@),
            steps == tail.map_values(|st: (DiffKind, int)| step_text(ta, tb, st)),
            forall|q: int|
                0 <= q < tail.len() ==> (#[trigger] tail[q]).0 == rev@[tail.len() - 1 - q].0
                    && tail[q].1 == rev@[tail.len() - 1 - q].1 as int,
            forall|q: int|
                0 <= q < tail.len() ==> ((#[trigger] tail[q]).0 == DiffKind::Insert ==> 0
                    <= tail[q].1 < tb.len()) && (tail[q].0 != DiffKind::Insert ==> 0 <= tail[q].1
                    < ta.len()),
            out_view(out@) == compact(steps.take(k as int)),
        decreases total - k,
    {
        let st = rev[total - 1 - k];
        proof {
            assert(tail[k as int].0 == st.0 && tail[k as int].1 == st.1 as int);
        }
        let tok: &Vec<char> = if st.0 == DiffKind::Insert {
            &b[st.1]
        } else {
            &a[st.1]
        };
        proof {
            assert(steps[k as int] == step_text(ta, tb, tail[k as int]));
            assert(steps[k as int] == (st.0, tok@));
            assert(steps.take(k + 1).drop_last() == steps.take(k as int));
            assert(steps.take(k + 1).last() == steps[k as int]);
        }
        let n_out = out.len();
        if n_out > 0 && out[n_out - 1].0 == st.0 {
            let (kind, mut text) = out.pop().unwrap();
            push_all(&mut text, tok);
            out.push((kind, text));
            proof {
                let r = compact(steps.take(k as int));
                assert(out_view(out@) == r.update(r.len() - 1, (st.0, r.last().1 + tok@)));
            }
        } else {
            out.push((st.0, tok.clone()));
            proof {
                let r = compact(steps.take(k as int));
                assert(out_view(out@) == r.push((st.0, tok@)));
            }
        }
        k = k + 1;
    }
    proof {
        assert(steps.take(total as int) == steps);
    }
    let mut result: Vec<(DiffKind, String)> = Vec::new();
    let mut q: usize = 0;
    while q < out.len()
        invariant
            q <= out@.len(),
            result@.len() == q,
            forall|p: int| 0 <= p < q ==> (#[trigger] result@[p]).0 == out@[p].0 && result@[p].1@
                == out@[p].1@,
        decreases out@.len() - q,
    {
        let s = string_of(&out[q].1);
        result.push((out[q].0, s));
        q = q + 1;
    }
    proof {
        assert(diff_view(result@) == out_view(out@));
    }
    result
}

pub open spec fn out_view(v: Seq<(DiffKind, Vec<char>)>) -> Seq<(DiffKind, Seq<char>)> {
    v.map_values(|p: (DiffKind, Vec<char>)| (p.0, p.1@))
}

// ------------------------------------------------------------------
// Laws
// ------------------------------------------------------------------

/// The concatenation of a sequence of texts.
pub open spec fn flatten(ts: Seq<Seq<char>>) -> Seq<char>
    decreases ts.len(),
{
    if ts.len() == 0 {
        Seq::empty()
    } else {
        flatten(ts.drop_last()) + ts.last()
    }
}

/// The text of the pieces whose kind is not `skip`, in order: with `skip == Insert` the
/// original text, with `skip == Delete` the proposed one.
pub open spec fn side(ops: Seq<(DiffKind, Seq<char>)>, skip: DiffKind) -> Seq<char>
    decreases ops.len(),
{
    if ops.len() == 0 {
        Seq::empty()
    } else {
        side(ops.drop_last(), skip) + (if ops.last().0 == skip {
            Seq::empty()
        } else {
            ops.last().1
        })
    }
}

proof fn lemma_flatten_tokenize(s: Seq<char>)
    ensures
        flatten(tokenize(s)) == s,
    decreases s.len(),
{
    if s.len() > 0 {
        let c = s.last();
        let rest = tokenize(s.drop_last());
        lemma_flatten_tokenize(s.drop_last());
        if is_word_char(c) && rest.len() > 0 && rest.last().len() > 0
            && is_word_char(rest.last().last()) {
            let t = rest.update(rest.len() - 1, rest.last().push(c));
            assert(t.drop_last() == rest.drop_last());
            assert(flatten(rest) == flatten(rest.drop_last()) + rest.last());
            assert(flatten(t) == flatten(rest.drop_last()) + rest.last().push(c));
            assert(s == s.drop_last().push(c));
        } else {
            assert(rest.push(seq![c]).drop_last() == rest);
            assert(s == s.drop_last() + seq![c]);
        }
    }
}

proof fn lemma_side_path(a: Seq<Seq<char>>, b: Seq<Seq<char>>, i: nat, j: nat)
    requires
        i <= a.len(),
        j <= b.len(),
    ensures
        side(diff_path(a, b, i, j).map_values(|st: (DiffKind, int)| step_text(a, b, st)), DiffKind::Insert)
            == flatten(a.take(i as int)),
        side(diff_path(a, b, i, j).map_values(|st: (DiffKind, int)| step_text(a, b, st)), DiffKind::Delete)
            == flatten(b.take(j as int)),
    decreases i + j,
{
    let f = |st: (DiffKind, int)| step_text(a, b, st);
    if i == 0 && j == 0 {
        assert(diff_path(a, b, i, j).map_values(f) == Seq::<(DiffKind, Seq<char>)>::empty());
        assert(a.take(0) == Seq::<Seq<char>>::empty());
        assert(b.take(0) == Seq::<Seq<char>>::empty());
    } else {
        let ni: nat = if i > 0 && j > 0 && a[i - 1] == b[j - 1] {
            (i - 1) as nat
        } else if j > 0 && (i == 0 || lcs(a, b, i, (j - 1) as nat) >= lcs(a, b, (i - 1) as nat, j)) {
            i
        } else {
            (i - 1) as nat
        };
        let nj: nat = if i > 0 && j > 0 && a[i - 1] == b[j - 1] {
            (j - 1) as nat
        } else if j > 0 && (i == 0 || lcs(a, b, i, (j - 1) as nat) >= lcs(a, b, (i - 1) as nat, j)) {
            (j - 1) as nat
        } else {
            j
        };
        lemma_side_path(a, b, ni, nj);
        let p = diff_path(a, b, ni, nj);
        let st = diff_path(a, b, i, j).last();
        assert(diff_path(a, b, i, j) == p.push(st));
        assert(p.push(st).map_values(f) == p.map_values(f).push(f(st)));
        assert(p.push(st).map_values(f).drop_last() == p.map_values(f));
        if i > 0 {
            assert(a.take(i as int).drop_last() == a.take(i - 1));
        }
        if j > 0 {
            assert(b.take(j as int).drop_last() == b.take(j - 1));
        }
    }
}

proof fn lemma_side_compact(ops: Seq<(DiffKind, Seq<char>)>, skip: DiffKind)
    ensures
        side(compact(ops), skip) == side(ops, skip),
    decreases ops.len(),
{
    if ops.len() > 0 {
        lemma_side_compact(ops.drop_last(), skip);
        let r = compact(ops.drop_last());
        let op = ops.last();
        if r.len() > 0 && r.last().0 == op.0 {
            let t = r.update(r.len() - 1, (op.0, r.last().1 + op.1));
            assert(t.drop_last() == r.drop_last());
            assert(side(r, skip) == side(r.drop_last(), skip) + (if r.last().0 == skip {
                Seq::empty()
            } else {
                r.last().1
            }));
            if op.0 == skip {
                assert(side(t, skip) == side(r.drop_last(), skip) + Seq::<char>::empty());
                assert(side(r, skip) == side(r.drop_last(), skip) + Seq::<char>::empty());
                assert(side(ops, skip) == side(ops.drop_last(), skip) + Seq::<char>::empty());
            } else {
                assert(side(t, skip) == side(r.drop_last(), skip) + (r.last().1 + op.1));
            }
        } else {
            assert(r.push(op).drop_last() == r);
        }
    }
}

proof fn lemma_compact_alternates(ops: Seq<(DiffKind, Seq<char>)>)
    ensures
        forall|k: int| 0 <= k < compact(ops).len() - 1 ==> #[trigger] compact(ops)[k].0 != compact(ops)[k + 1].0,
        ops.len() > 0 ==> compact(ops).len() > 0 && compact(ops).last().0 == ops.last().0,
    decreases ops.len(),
{
    if ops.len() > 0 {
        lemma_compact_alternates(ops.drop_last());
        let r = compact(ops.drop_last());
        let op = ops.last();
        let c = compact(ops);
        if r.len() > 0 && r.last().0 == op.0 {
            assert forall|k: int| 0 <= k < c.len() - 1 implies #[trigger] c[k].0 != c[k + 1].0 by {
                assert(c[k] == r[k]);
                assert(c[k + 1].0 == r[k + 1].0);
            }
        } else {
            assert forall|k: int| 0 <= k < c.len() - 1 implies #[trigger] c[k].0 != c[k + 1].0 by {
                assert(c[k] == r[k]);
                if k + 1 < r.len() {
                    assert(c[k + 1] == r[k + 1]);
                }
            }
        }
    }
}

/// The diff loses nothing: the kept and deleted pieces, in order, spell the original text,
/// and the kept and inserted pieces spell the proposed text.
pub proof fn lemma_diff_reconstructs(old: Seq<char>, new: Seq<char>)
    ensures
        side(spec_diff(old, new), DiffKind::Insert) == old,
        side(spec_diff(old, new), DiffKind::Delete) == new,
{
    let a = tokenize(old);
    let b = tokenize(new);
    let ops = diff_path(a, b, a.len(), b.len()).map_values(|st: (DiffKind, int)| step_text(a, b, st));
    lemma_side_path(a, b, a.len(), b.len());
    lemma_side_compact(ops, DiffKind::Insert);
    lemma_side_compact(ops, DiffKind::Delete);
    assert(a.take(a.len() as int) == a);
    assert(b.take(b.len() as int) == b);
    lemma_flatten_tokenize(old);
    lemma_flatten_tokenize(new);
}

proof fn lemma_tokens_nonempty(s: Seq<char>)
    ensures
        forall|k: int| 0 <= k < tokenize(s).len() ==> (#[trigger] tokenize(s)[k]).len() > 0,
    decreases s.len(),
{
    if s.len() > 0 {
        lemma_tokens_nonempty(s.drop_last());
        let c = s.last();
        let rest = tokenize(s.drop_last());
        let t = tokenize(s);
        assert forall|k: int| 0 <= k < t.len() implies (#[trigger] t[k]).len() > 0 by {
            if k < rest.len() && k != rest.len() - 1 {
                assert(t[k] == rest[k]);
            } else if k < rest.len() {
                if !(is_word_char(c) && rest.len() > 0 && rest.last().len() > 0 && is_word_char(
                    rest.last().last(),
                )) {
                    assert(t[k] == rest[k]);
                }
            }
        }
    }
}

proof fn lemma_path_indices(a: Seq<Seq<char>>, b: Seq<Seq<char>>, i: nat, j: nat)
    requires
        i <= a.len(),
        j <= b.len(),
    ensures
        forall|k: int|
            0 <= k < diff_path(a, b, i, j).len() ==> if (#[trigger] diff_path(a, b, i, j)[k]).0
                == DiffKind::Insert {
                0 <= diff_path(a, b, i, j)[k].1 < j
            } else {
                0 <= diff_path(a, b, i, j)[k].1 < i
            },
    decreases i + j,
{
    if i == 0 && j == 0 {
    } else if i > 0 && j > 0 && a[i - 1] == b[j - 1] {
        lemma_path_indices(a, b, (i - 1) as nat, (j - 1) as nat);
    } else if j > 0 && (i == 0 || lcs(a, b, i, (j - 1) as nat) >= lcs(a, b, (i - 1) as nat, j)) {
        lemma_path_indices(a, b, i, (j - 1) as nat);
    } else {
        lemma_path_indices(a, b, (i - 1) as nat, j);
    }
}

proof fn lemma_compact_nonempty(ops: Seq<(DiffKind, Seq<char>)>)
    requires
        forall|k: int| 0 <= k < ops.len() ==> (#[trigger] ops[k]).1.len() > 0,
    ensures
        forall|k: int| 0 <= k < compact(ops).len() ==> (#[trigger] compact(ops)[k]).1.len() > 0,
    decreases ops.len(),
{
    if ops.len() > 0 {
        let r = compact(ops.drop_last());
        let op = ops.last();
        assert forall|k: int| 0 <= k < ops.drop_last().len() implies (#[trigger] ops.drop_last()[k]).1.len() > 0 by {
            assert(ops.drop_last()[k] == ops[k]);
        }
        lemma_compact_nonempty(ops.drop_last());
        assert(op == ops[ops.len() - 1]);
        let c = compact(ops);
        assert forall|k: int| 0 <= k < c.len() implies (#[trigger] c[k]).1.len() > 0 by {
            if k < r.len() && k != r.len() - 1 {
                assert(c[k] == r[k]);
            } else if k < r.len() {
                if !(r.len() > 0 && r.last().0 == op.0) {
                    assert(c[k] == r[k]);
                } else {
                    assert(c[k].1 == r.last().1 + op.1);
                }
            }
        }
    }
}

/// No piece of a diff is empty.
pub proof fn lemma_diff_pieces_nonempty(old: Seq<char>, new: Seq<char>)
    ensures
        forall|k: int| 0 <= k < spec_diff(old, new).len() ==> (#[trigger] spec_diff(old, new)[k]).1.len() > 0,
{
    let a = tokenize(old);
    let b = tokenize(new);
    let path = diff_path(a, b, a.len(), b.len());
    let ops = path.map_values(|st: (DiffKind, int)| step_text(a, b, st));
    lemma_tokens_nonempty(old);
    lemma_tokens_nonempty(new);
    lemma_path_indices(a, b, a.len(), b.len());
    assert forall|k: int| 0 <= k < ops.len() implies (#[trigger] ops[k]).1.len() > 0 by {
        assert(ops[k] == step_text(a, b, path[k]));
        if path[k].0 == DiffKind::Insert {
            assert(b[path[k].1].len() > 0);
        } else {
            assert(a[path[k].1].len() > 0);
        }
    }
    lemma_compact_nonempty(ops);
}

/// The number of kept steps in `path`.
pub open spec fn keep_count(path: Seq<(DiffKind, int)>) -> nat
    decreases path.len(),
{
    if path.len() == 0 {
        0
    } else {
        keep_count(path.drop_last()) + if path.last().0 == DiffKind::Keep {
            1nat
        } else {
            0nat
        }
    }
}

proof fn lemma_keep_count_path(a: Seq<Seq<char>>, b: Seq<Seq<char>>, i: nat, j: nat)
    ensures
        keep_count(diff_path(a, b, i, j)) == lcs(a, b, i, j),
    decreases i + j,
{
    if i == 0 && j == 0 {
    } else if i > 0 && j > 0 && a[i - 1] == b[j - 1] {
        lemma_keep_count_path(a, b, (i - 1) as nat, (j - 1) as nat);
        assert(diff_path(a, b, i, j).drop_last() == diff_path(a, b, (i - 1) as nat, (j - 1) as nat));
    } else if j > 0 && (i == 0 || lcs(a, b, i, (j - 1) as nat) >= lcs(a, b, (i - 1) as nat, j)) {
        lemma_keep_count_path(a, b, i, (j - 1) as nat);
        assert(diff_path(a, b, i, j).drop_last() == diff_path(a, b, i, (j - 1) as nat));
    } else {
        lemma_keep_count_path(a, b, (i - 1) as nat, j);
        assert(diff_path(a, b, i, j).drop_last() == diff_path(a, b, (i - 1) as nat, j));
    }
}

/// The diff keeps as many tokens as the longest common subsequence of the two token
/// lists holds: its kept steps number `lcs` of the whole texts.
pub proof fn lemma_diff_keeps_lcs(old: Seq<char>, new: Seq<char>)
    ensures
        keep_count(diff_path(tokenize(old), tokenize(new), tokenize(old).len(), tokenize(new).len()))
            == lcs(tokenize(old), tokenize(new), tokenize(old).len(), tokenize(new).len()),
{
    lemma_keep_count_path(tokenize(old), tokenize(new), tokenize(old).len(), tokenize(new).len());
}

/// Neighbouring pieces of a diff always differ in kind.
pub proof fn lemma_diff_alternates(old: Seq<char>, new: Seq<char>)
    ensures
        forall|k: int|
            0 <= k < spec_diff(old, new).len() - 1 ==> #[trigger] spec_diff(old, new)[k].0
                != spec_diff(old, new)[k + 1].0,
{
    let a = tokenize(old);
    let b = tokenize(new);
    lemma_compact_alternates(
        diff_path(a, b, a.len(), b.len()).map_values(|st: (DiffKind, int)| step_text(a, b, st)),
    );
}

} // verus!
