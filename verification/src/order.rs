//! Ordering of texts: the lexicographic order of their characters, which for UTF-8
//! strings is the order `String` compares in, and sorting by it.
use vstd::prelude::*;
use crate::text::chars_of;

verus! {

/// `a` comes strictly before `b`: at the first difference `a` has the smaller character,
/// or `a` is a proper prefix of `b`.
pub open spec fn seq_lt(a: Seq<char>, b: Seq<char>) -> bool
    decreases a.len(),
{
    if b.len() == 0 {
        false
    } else if a.len() == 0 {
        true
    } else if a[0] != b[0] {
        a[0] < b[0]
    } else {
        seq_lt(a.drop_first(), b.drop_first())
    }
}

pub proof fn lemma_seq_lt_irreflexive(a: Seq<char>)
    ensures
        !seq_lt(a, a),
    decreases a.len(),
{
    if a.len() > 0 {
        lemma_seq_lt_irreflexive(a.drop_first());
    }
}

pub proof fn lemma_seq_lt_total(a: Seq<char>, b: Seq<char>)
    ensures
        a != b ==> seq_lt(a, b) || seq_lt(b, a),
        !(seq_lt(a, b) && seq_lt(b, a)),
    decreases a.len(),
{
    if a.len() > 0 && b.len() > 0 {
        lemma_seq_lt_total(a.drop_first(), b.drop_first());
        if a[0] == b[0] && a != b {
            assert(a.drop_first() != b.drop_first()) by {
                if a.drop_first() == b.drop_first() {
                    assert(a == seq![a[0]] + a.drop_first());
                    assert(b == seq![b[0]] + b.drop_first());
                }
            }
        }
    } else if a.len() == 0 && b.len() == 0 {
        assert(a == b);
    }
}

pub proof fn lemma_seq_lt_transitive(a: Seq<char>, b: Seq<char>, c: Seq<char>)
    requires
        seq_lt(a, b),
        seq_lt(b, c),
    ensures
        seq_lt(a, c),
    decreases a.len(),
{
    if a.len() > 0 && b.len() > 0 && c.len() > 0 && a[0] == b[0] && b[0] == c[0] {
        lemma_seq_lt_transitive(a.drop_first(), b.drop_first(), c.drop_first());
    }
}

/// Compares two character sequences in the order above.
pub fn vec_lt(a: &Vec<char>, b: &Vec<char>) -> (r: bool)
    ensures
        r == seq_lt(a@, b@),
{
    let mut k: usize = 0;
    assert(a@.skip(0) == a@ && b@.skip(0) == b@);
    while k < a.len() && k < b.len()
        invariant
            k <= a@.len(),
            k <= b@.len(),
            forall|j: int| 0 <= j < k ==> a@[j] == b@[j],
            seq_lt(a@, b@) == seq_lt(a@.skip(k as int), b@.skip(k as int)),
        decreases a@.len() - k,
    {
        if a[k] != b[k] {
            let x = a[k];
            let y = b[k];
            proof {
                assert(a@.skip(k as int)[0] == x);
                assert(b@.skip(k as int)[0] == y);
            }
            return x < y;
        }
        proof {
            assert(a@.skip(k as int).drop_first() == a@.skip(k + 1));
            assert(b@.skip(k as int).drop_first() == b@.skip(k + 1));
        }
        k = k + 1;
    }
    k < b.len()
}

/// Strictly increasing: sorted with no repeats.
pub open spec fn strictly_sorted(s: Seq<Seq<char>>) -> bool {
    forall|i: int, j: int| 0 <= i < j < s.len() ==> seq_lt(#[trigger] s[i], #[trigger] s[j])
}

pub open spec fn strings_view(v: Seq<String>) -> Seq<Seq<char>> {
    v.map_values(|s: String| s@)
}

/// Sorts `items` and drops repeats: the result holds each distinct text of `items` once,
/// in increasing order.
pub fn sort_dedup(items: &Vec<String>) -> (r: Vec<String>)
    ensures
        strictly_sorted(strings_view(r@)),
        forall|x: Seq<char>| strings_view(r@).contains(x) <==> strings_view(items@).contains(x),
{
    let mut out: Vec<String> = Vec::new();
    let mut keys: Vec<Vec<char>> = Vec::new();
    let mut i: usize = 0;
    while i < items.len()
        invariant
            i <= items@.len(),
            out@.len() == keys@.len(),
            forall|k: int| 0 <= k < keys@.len() ==> (#[trigger] keys@[k])@ == out@[k]@,
            strictly_sorted(strings_view(out@)),
            forall|x: Seq<char>|
                strings_view(out@).contains(x) <==> strings_view(items@).take(i as int).contains(x),
        decreases items@.len() - i,
    {
        let key = chars_of(items[i].as_str());
        let ghost sv = strings_view(out@);
        // first position whose text is not before `key`
        let mut p: usize = 0;
        while p < keys.len() && vec_lt(&keys[p], &key)
            invariant
                p <= keys@.len(),
                out@.len() == keys@.len(),
                sv == strings_view(out@),
                forall|k: int| 0 <= k < keys@.len() ==> (#[trigger] keys@[k])@ == out@[k]@,
                forall|k: int| 0 <= k < p ==> seq_lt(#[trigger] sv[k], key@),
            decreases keys@.len() - p,
        {
            p = p + 1;
        }
        let ghost iv = strings_view(items@);
        assert(iv.take(i + 1) == iv.take(i as int).push(key@));
        let dup = p < keys.len() && !vec_lt(&key, &keys[p]);
        if dup {
            proof {
                lemma_seq_lt_total(keys@[p as int]@, key@);
                assert(sv[p as int] == key@);
                assert forall|x: Seq<char>| sv.contains(x) <==> iv.take(i + 1).contains(x) by {
                    if x == key@ {
                        assert(sv[p as int] == x);
                    }
                    if iv.take(i as int).contains(x) {
                        let w = choose|w: int| 0 <= w < iv.take(i as int).len() && #[trigger] iv.take(i as int)[w] == x;
                        assert(iv.take(i + 1)[w] == x);
                    }
                    if iv.take(i + 1).contains(x) && x != key@ {
                        let w = choose|w: int| 0 <= w < iv.take(i + 1).len() && #[trigger] iv.take(i + 1)[w] == x;
                        assert(iv.take(i as int)[w] == x);
                    }
                }
            }
        } else {
            let s = items[i].clone();
            out.insert(p, s);
            keys.insert(p, key);
            proof {
                let nv = strings_view(out@);
                assert(nv == sv.insert(p as int, key@));
                assert forall|a: int, b: int| 0 <= a < b < nv.len() implies seq_lt(#[trigger] nv[a], #[trigger] nv[b]) by {
                    if b < p {
                        assert(nv[a] == sv[a] && nv[b] == sv[b]);
                    } else if b == p {
                        assert(nv[a] == sv[a]);
                    } else if a == p {
                        assert(nv[b] == sv[b - 1]);
                        if b - 1 > p {
                            assert(seq_lt(sv[p as int], sv[b - 1]));
                            lemma_seq_lt_transitive(key@, sv[p as int], sv[b - 1]);
                        } else {
                            lemma_seq_lt_total(key@, sv[p as int]);
                        }
                        if p < sv.len() {
                            lemma_seq_lt_total(key@, sv[p as int]);
                        }
                    } else if a < p {
                        assert(nv[a] == sv[a] && nv[b] == sv[b - 1]);
                    } else {
                        assert(nv[a] == sv[a - 1] && nv[b] == sv[b - 1]);
                    }
                }
                assert forall|k: int| 0 <= k < keys@.len() implies (#[trigger] keys@[k])@ == out@[k]@ by {
                    if k < p {
                    } else if k == p {
                    } else {
                    }
                }
                assert forall|x: Seq<char>| nv.contains(x) <==> iv.take(i + 1).contains(x) by {
                    if nv.contains(x) {
                        let w = choose|w: int| 0 <= w < nv.len() && #[trigger] nv[w] == x;
                        if w < p {
                            assert(sv[w] == x);
                        } else if w > p {
                            assert(sv[w - 1] == x);
                        }
                        if x != key@ {
                            assert(sv.contains(x));
                            let w2 = choose|w2: int| 0 <= w2 < iv.take(i as int).len() && #[trigger] iv.take(i as int)[w2] == x;
                            assert(iv.take(i + 1)[w2] == x);
                        } else {
                            assert(iv.take(i + 1)[i as int] == x);
                        }
                    }
                    if iv.take(i + 1).contains(x) {
                        let w = choose|w: int| 0 <= w < iv.take(i + 1).len() && #[trigger] iv.take(i + 1)[w] == x;
                        if w < i {
                            assert(iv.take(i as int)[w] == x);
                            assert(sv.contains(x));
                            let w2 = choose|w2: int| 0 <= w2 < sv.len() && #[trigger] sv[w2] == x;
                            if w2 < p {
                                assert(nv[w2] == x);
                            } else {
                                assert(nv[w2 + 1] == x);
                            }
                        } else {
                            assert(nv[p as int] == x);
                        }
                    }
                }
            }
        }
        i = i + 1;
    }
    assert(strings_view(items@).take(items@.len() as int) == strings_view(items@));
    out
}

} // verus!
