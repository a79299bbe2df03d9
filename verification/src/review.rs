//! Reading the assistant's review of a passage: the list of errors it found and the
//! improved text, as its reply lays them out.
use vstd::prelude::*;
use crate::search::{replace_all, replace_text, replaced_from};
use crate::text::{
    chars_of, contains_seq, find_char, find_from, occurs_at, find_seq_from, first_index_of, push_range,
    string_of, sub_vec, trim, trim_end, trim_end_at, trim_start, trim_start_at, is_ws,
};

verus! {

/// One reported error: `title: detail` when the line has a colon, else the line alone.
#[derive(Clone, Debug, PartialEq, Eq)]
pub struct ReviewItem {
    pub title: Option<String>,
    pub detail: String,
}

/// A reply split into its parts, or a reply without the expected layout.
#[derive(Clone, Debug, PartialEq, Eq)]
pub enum AiReview {
    Structured { errors: Vec<ReviewItem>, improved: String },
    Plain,
}

pub open spec fn item_model(i: ReviewItem) -> (Option<Seq<char>>, Seq<char>) {
    (
        match i.title {
            Some(t) => Some(t@),
            None => None,
        },
        i.detail@,
    )
}

pub open spec fn items_model(v: Seq<ReviewItem>) -> Seq<(Option<Seq<char>>, Seq<char>)> {
    v.map_values(|i: ReviewItem| item_model(i))
}

/// `s` without any number of leading copies of `p` (`str::trim_start_matches`).
pub open spec fn strip_prefixes(s: Seq<char>, p: Seq<char>) -> Seq<char>
    decreases s.len(),
{
    if p.len() > 0 && p.is_prefix_of(s) {
        strip_prefixes(s.skip(p.len() as int), p)
    } else {
        s
    }
}

/// The lines of `s` as `str::lines` yields them.
pub open spec fn text_lines(s: Seq<char>) -> Seq<Seq<char>> {
    crate::highlight::str_lines(s)
}

/// One error line of the reply, once trimmed, without its leading `-` and `*` marks, and
/// with `**` removed; split at its first colon into a title and a detail.
pub open spec fn error_item(line: Seq<char>) -> (Option<Seq<char>>, Seq<char>) {
    let cl = trim(strip_prefixes(strip_prefixes(trim(line), seq!['-']), seq!['*']));
    match first_index_of(cl, ':') {
        Some(i) => (
            Some(trim(replace_all(cl.take(i), "**"@, Seq::empty()))),
            trim(replace_all(cl.skip(i + 1), "**"@, Seq::empty())),
        ),
        None => (None, replace_all(cl, "**"@, Seq::empty())),
    }
}

/// The error items of the lines, skipping blank ones.
pub open spec fn error_items(lines: Seq<Seq<char>>) -> Seq<(Option<Seq<char>>, Seq<char>)>
    decreases lines.len(),
{
    if lines.len() == 0 {
        Seq::empty()
    } else {
        let rest = error_items(lines.drop_last());
        if trim(lines.last()).len() == 0 {
            rest
        } else {
            rest.push(error_item(lines.last()))
        }
    }
}

/// The marker that starts the improved text: `**Improved Text:**` when present, else
/// `Improved Text:` when present.
pub open spec fn improved_marker(s: Seq<char>) -> Option<Seq<char>> {
    if contains_seq(s, "**Improved Text:**"@) {
        Some("**Improved Text:**"@)
    } else if contains_seq(s, "Improved Text:"@) {
        Some("Improved Text:"@)
    } else {
        None
    }
}

/// How the reply `s` reads: the errors before the first marker (after an `Errors found:`
/// heading, with or without `**`), and the improved text between the first marker and
/// the next one (or the end).
pub open spec fn review_of(s: Seq<char>) -> Option<(Seq<(Option<Seq<char>>, Seq<char>)>, Seq<char>)> {
    match improved_marker(s) {
        Some(m) => match find_from(s, m, 0) {
            Some(i) => {
                let after = s.skip(i + m.len());
                let part1 = match find_from(after, m, 0) {
                    Some(j) => after.take(j),
                    None => after,
                };
                let errors = trim(
                    strip_prefixes(strip_prefixes(trim(s.take(i)), "**Errors found:**"@), "Errors found:"@),
                );
                Some((error_items(text_lines(errors)), trim(part1)))
            },
            None => None,
        },
        None => None,
    }
}

fn trim_vec(v: &Vec<char>) -> (r: Vec<char>)
    ensures
        r@ == trim(v@),
{
    let b = trim_start_at(v, 0, v.len());
    assert(v@.subrange(0, v@.len() as int) == v@);
    let sub = sub_vec(v, b, v.len());
    let e = trim_end_at(&sub, sub.len());
    assert(sub@.take(sub@.len() as int) == sub@);
    let mut r: Vec<char> = Vec::new();
    push_range(&mut r, &sub, 0, e);
    assert(sub@.subrange(0, e as int) == sub@.take(e as int));
    r
}

fn strip_prefixes_vec(v: &Vec<char>, p: &Vec<char>) -> (r: Vec<char>)
    ensures
        r@ == strip_prefixes(v@, p@),
{
    if p.len() == 0 {
        let mut r: Vec<char> = Vec::new();
        crate::text::push_all(&mut r, v);
        return r;
    }
    let mut i: usize = 0;
    assert(v@.skip(0) == v@);
    while crate::text::starts_with_at(v, i, p)
        invariant
            i <= v@.len(),
            p@.len() > 0,
            strip_prefixes(v@.skip(i as int), p@) == strip_prefixes(v@, p@),
        decreases v@.len() - i,
    {
        assert(p@.is_prefix_of(v@.skip(i as int)));
        assert(p@.len() <= v@.skip(i as int).len());
        assert(i + p.len() <= v.len());
        assert(v@.skip(i as int).skip(p@.len() as int) == v@.skip(i + p@.len()));
        i = i + p.len();
    }
    let r = sub_vec(v, i, v.len());
    assert(v@.subrange(i as int, v@.len() as int) == v@.skip(i as int));
    r
}

fn lines_vec(v: &Vec<char>) -> (ls: Vec<Vec<char>>)
    ensures
        ls@.map_values(|l: Vec<char>| l@) == text_lines(v@),
{
    let n = v.len();
    let mut out: Vec<Vec<char>> = Vec::new();
    let mut start: usize = 0;
    assert(v@.skip(0) == v@);
    while start < n
        invariant
            start <= n == v@.len(),
            out@.map_values(|l: Vec<char>| l@) + text_lines(v@.skip(start as int)) == text_lines(v@),
        decreases n - start,
    {
        let ghost rest = v@.skip(start as int);
        let (end, next) = match find_char(v, start, n, '\n') {
            Some(i) => (i, i + 1),
            None => (n, n),
        };
        let stop = if next > end && end > start && v[end - 1] == '\r' { end - 1 } else { end };
        let line = sub_vec(v, start, stop);
        proof {
            let l = v@.subrange(start as int, stop as int);
            assert(rest == v@.subrange(start as int, n as int));
            if next > end {
                crate::text::lemma_first_index_of(rest, '\n');
                assert(rest.take(end - start) == v@.subrange(start as int, end as int));
                assert(rest.skip(end - start + 1) == v@.skip(next as int));
                if end > start && v@[end - 1] == '\r' {
                    assert(v@.subrange(start as int, end as int).drop_last() == l);
                }
                assert(text_lines(rest) == seq![l] + text_lines(v@.skip(next as int)));
            } else {
                crate::text::lemma_first_index_of(rest, '\n');
                assert(text_lines(rest) == seq![rest]);
                assert(v@.skip(next as int) == Seq::<char>::empty());
                assert(text_lines(v@.skip(next as int)) == Seq::<Seq<char>>::empty());
            }
        }
        let ghost before = out@.map_values(|l: Vec<char>| l@);
        out.push(line);
        assert(out@.map_values(|l: Vec<char>| l@) == before.push(line@));
        start = next;
    }
    assert(v@.skip(n as int) == Seq::<char>::empty());
    assert(text_lines(v@.skip(n as int)) == Seq::<Seq<char>>::empty());
    out
}

fn error_item_exec(line: &Vec<char>) -> (r: ReviewItem)
    ensures
        item_model(r) == error_item(line@),
{
    proof {
        reveal_strlit("**");
    }
    let t = trim_vec(line);
    let dash: Vec<char> = vec!['-'];
    let star: Vec<char> = vec!['*'];
    let a = strip_prefixes_vec(&t, &dash);
    let b = strip_prefixes_vec(&a, &star);
    let cl = trim_vec(&b);
    let bold = chars_of("**");
    let none: Vec<char> = Vec::new();
    assert(dash@ == seq!['-']);
    assert(star@ == seq!['*']);
    match find_char(&cl, 0, cl.len(), ':') {
        Some(i) => {
            proof {
                assert(cl@.subrange(0, cl@.len() as int) == cl@);
                crate::text::lemma_first_index_of(cl@, ':');
                crate::text::lemma_first_index_of_unique(cl@, ':', i as int);
            }
            let title = sub_vec(&cl, 0, i);
            let detail = sub_vec(&cl, i + 1, cl.len());
            assert(cl@.subrange(0, i as int) == cl@.take(i as int));
            assert(cl@.subrange(i + 1, cl@.len() as int) == cl@.skip(i + 1));
            let t1 = trim_vec(&replace_text(&title, &bold, &none));
            let d1 = trim_vec(&replace_text(&detail, &bold, &none));
            ReviewItem { title: Some(string_of(&t1)), detail: string_of(&d1) }
        },
        None => {
            proof {
                assert(cl@.subrange(0, cl@.len() as int) == cl@);
                crate::text::lemma_first_index_of(cl@, ':');
            }
            let d = replace_text(&cl, &bold, &none);
            ReviewItem { title: None, detail: string_of(&d) }
        },
    }
}

/// Reads the assistant's reply (see `review_of`); `Plain` when it has no improved-text
/// marker.
pub fn parse_ai_summary(summary: &str) -> (r: AiReview)
    ensures
        review_of(summary@) matches Some(x) ==> (r matches AiReview::Structured { errors, improved }
            && items_model(errors@) == x.0 && improved@ == x.1),
        review_of(summary@) is None ==> r is Plain,
        r matches AiReview::Structured { errors, .. } ==> forall|k: int| 0 <= k < errors@.len() ==> {
            &&& !contains_seq((#[trigger] errors@[k]).detail@, "**"@)
            &&& errors@[k].title matches Some(t) ==> !contains_seq(t@, "**"@)
        },
{
    let s = chars_of(summary);
    let m1 = chars_of("**Improved Text:**");
    let m2 = chars_of("Improved Text:");
    let m = if find_seq_from(&s, &m1, 0).is_some() {
        m1
    } else if find_seq_from(&s, &m2, 0).is_some() {
        m2
    } else {
        return AiReview::Plain;
    };
    let i = match find_seq_from(&s, &m, 0) {
        Some(i) => i,
        None => return AiReview::Plain,
    };
    proof {
        crate::text::lemma_find_from_props(s@, m@, 0);
    }
    let after = sub_vec(&s, i + m.len(), s.len());
    assert(s@.subrange(i + m@.len(), s@.len() as int) == s@.skip(i + m@.len()));
    let part1 = match find_seq_from(&after, &m, 0) {
        Some(j) => {
            proof {
                crate::text::lemma_find_from_props(after@, m@, 0);
            }
            let p = sub_vec(&after, 0, j);
            assert(after@.subrange(0, j as int) == after@.take(j as int));
            p
        },
        None => sub_vec(&after, 0, after.len()),
    };
    assert(after@.subrange(0, after@.len() as int) == after@);
    let head = sub_vec(&s, 0, i);
    assert(s@.subrange(0, i as int) == s@.take(i as int));
    let e1 = strip_prefixes_vec(&trim_vec(&head), &chars_of("**Errors found:**"));
    let e2 = strip_prefixes_vec(&e1, &chars_of("Errors found:"));
    let errors_text = trim_vec(&e2);
    let lines = lines_vec(&errors_text);
    let ghost lv = lines@.map_values(|l: Vec<char>| l@);
    let mut items: Vec<ReviewItem> = Vec::new();
    let mut k: usize = 0;
    while k < lines.len()
        invariant
            k <= lines@.len(),
            lv == lines@.map_values(|l: Vec<char>| l@),
            items_model(items@) == error_items(lv.take(k as int)),
        decreases lines@.len() - k,
    {
        assert(lv.take(k + 1).drop_last() == lv.take(k as int));
        assert(lv.take(k + 1).last() == lines@[k as int]@);
        let tl = trim_vec(&lines[k]);
        if tl.len() > 0 {
            let it = error_item_exec(&lines[k]);
            let ghost before = items_model(items@);
            items.push(it);
            assert(items_model(items@) == before.push(item_model(it)));
        }
        k = k + 1;
    }
    assert(lv.take(lines@.len() as int) == lv);
    let improved = trim_vec(&part1);
    proof {
        lemma_review_items_unbolded(summary@);
        assert forall|q: int| 0 <= q < items@.len() implies item_model(#[trigger] items@[q])
            == items_model(items@)[q] by {}
    }
    AiReview::Structured { errors: items, improved: string_of(&improved) }
}

/// The number of lines of `v`, as `str::lines` counts them.
pub fn count_lines(v: &Vec<char>) -> (n: usize)
    ensures
        n == text_lines(v@).len(),
{
    lines_vec(v).len()
}

/// How a passage is quoted in the index: in double quotes, cut after its first 80 bytes
/// (followed by `...`) when it is longer.
pub open spec fn quoted(t: Seq<char>) -> Seq<char> {
    if crate::structure::byte_len(t) > 80 {
        "\""@ + t.take(choose|k: int| 0 <= k <= t.len() && crate::structure::byte_len(#[trigger] t.take(k)) == 80)
            + "...\""@
    } else {
        "\""@ + t + "\""@
    }
}

/// Quotes a passage (see `quoted`); 80 bytes must end on a character when it is longer.
pub fn quoted_preview(text: &str) -> (r: String)
    requires
        crate::structure::byte_len(text@) > 80 ==> exists|k: int|
            0 <= k <= text@.len() && crate::structure::byte_len(#[trigger] text@.take(k)) == 80,
    ensures
        r@ == quoted(text@),
{
    let v = chars_of(text);
    let mut out: Vec<char> = Vec::new();
    out.push('"');
    match crate::structure::char_count_at_byte(&v, 80) {
        Some(k) if k < v.len() => {
            proof {
                let c = choose|q: int| 0 <= q <= v@.len() && crate::structure::byte_len(#[trigger] v@.take(q)) == 80;
                crate::structure::lemma_byte_len_take_unique(v@, c, k as int);
                crate::structure::lemma_byte_len_take_unique_long(v@, k as int);
                reveal_strlit("\"");
                reveal_strlit("...\"");
            }
            push_range(&mut out, &v, 0, k);
            crate::text::push_all(&mut out, &chars_of("...\""));
            assert(v@.subrange(0, k as int) == v@.take(k as int));
        },
        _ => {
            proof {
                crate::structure::lemma_byte_len_take_unique_long_none(v@);
                reveal_strlit("\"");
            }
            crate::text::push_all(&mut out, &v);
            out.push('"');
        },
    }
    string_of(&out)
}


/// Two `*` side by side at `k` and `k + 1`.
pub open spec fn star_pair_at(s: Seq<char>, k: int) -> bool {
    s[k] == '*' && s[k + 1] == '*'
}

/// `s` holds no two adjacent `*`.
pub open spec fn free_of_star_pairs(s: Seq<char>) -> bool {
    forall|k: int| 0 <= k && k + 1 < s.len() ==> !#[trigger] star_pair_at(s, k)
}

proof fn lemma_free_not_bold(s: Seq<char>)
    requires
        free_of_star_pairs(s),
    ensures
        !contains_seq(s, "**"@),
{
    reveal_strlit("**");
    crate::text::lemma_find_from_props(s, "**"@, 0);
    if let Some(i) = find_from(s, "**"@, 0) {
        assert(s.subrange(i, i + 2)[0] == s[i]);
        assert(s.subrange(i, i + 2)[1] == s[i + 1]);
        assert(star_pair_at(s, i));
    }
}

proof fn lemma_subrange_free(s: Seq<char>, a: int, b: int)
    requires
        free_of_star_pairs(s),
        0 <= a <= b <= s.len(),
    ensures
        free_of_star_pairs(s.subrange(a, b)),
{
    let t = s.subrange(a, b);
    assert forall|k: int| 0 <= k && k + 1 < t.len() implies !#[trigger] star_pair_at(t, k) by {
        assert(!star_pair_at(s, a + k));
    }
}

proof fn lemma_concat_free(x: Seq<char>, y: Seq<char>)
    requires
        free_of_star_pairs(x),
        free_of_star_pairs(y),
        x.len() == 0 || x.last() != '*',
    ensures
        free_of_star_pairs(x + y),
{
    let t = x + y;
    assert forall|k: int| 0 <= k && k + 1 < t.len() implies !#[trigger] star_pair_at(t, k) by {
        if k + 1 < x.len() {
            assert(!star_pair_at(x, k));
        } else if k >= x.len() {
            assert(!star_pair_at(y, k - x.len()));
        }
    }
}

/// The stretch `s[from..end]` holds no `**` when no match of `**` starts in `from..end - 1`.
proof fn lemma_unmatched_stretch_free(s: Seq<char>, from: int, end: int)
    requires
        0 <= from <= end <= s.len(),
        forall|j: int| from <= j < end - 1 ==> !occurs_at(s, "**"@, j),
    ensures
        free_of_star_pairs(s.subrange(from, end)),
{
    reveal_strlit("**");
    let t = s.subrange(from, end);
    assert forall|k: int| 0 <= k && k + 1 < t.len() implies !#[trigger] star_pair_at(t, k) by {
        if star_pair_at(t, k) {
            assert(s.subrange(from + k, from + k + 2) =~= "**"@);
            assert(occurs_at(s, "**"@, from + k));
        }
    }
}

/// Removing every `**` (leftmost first) leaves no `**` behind.
proof fn lemma_replaced_from_free(s: Seq<char>, from: int)
    requires
        0 <= from <= s.len(),
    ensures
        free_of_star_pairs(replaced_from(s, "**"@, Seq::empty(), from)),
    decreases s.len() + 1 - from,
{
    reveal_strlit("**");
    let q = "**"@;
    crate::text::lemma_find_from_props(s, q, from);
    match find_from(s, q, from) {
        Some(i) => {
            let piece = s.subrange(from, i);
            lemma_unmatched_stretch_free(s, from, i);
            if piece.len() > 0 {
                assert(s.subrange(i, i + 2)[0] == s[i]);
                if s[i - 1] == '*' {
                    assert(s.subrange(i - 1, i + 1) =~= q);
                    assert(occurs_at(s, q, i - 1));
                }
                assert(piece.last() == s[i - 1]);
            }
            lemma_replaced_from_free(s, i + 2);
            let rest = replaced_from(s, q, Seq::empty(), i + 2);
            assert(piece + Seq::<char>::empty() + rest =~= piece + rest);
            lemma_concat_free(piece, rest);
        },
        None => {
            lemma_unmatched_stretch_free(s, from, s.len() as int);
        },
    }
}

proof fn lemma_trim_free(s: Seq<char>)
    requires
        free_of_star_pairs(s),
    ensures
        free_of_star_pairs(trim(s)),
{
    crate::text::lemma_trim_start_suffix(s);
    let a = trim_start(s);
    lemma_subrange_free(s, s.len() - a.len(), s.len() as int);
    crate::text::lemma_trim_end_prefix(a);
    lemma_subrange_free(a, 0, trim_end(a).len() as int);
    assert(a.subrange(0, trim_end(a).len() as int) =~= trim_end(a));
}

/// An error item keeps no `**` in its title or its detail.
pub open spec fn item_unbolded(it: (Option<Seq<char>>, Seq<char>)) -> bool {
    &&& !contains_seq(it.1, "**"@)
    &&& it.0 matches Some(t) ==> !contains_seq(t, "**"@)
}

proof fn lemma_error_item_unbolded(line: Seq<char>)
    ensures
        item_unbolded(error_item(line)),
{
    let cl = trim(strip_prefixes(strip_prefixes(trim(line), seq!['-']), seq!['*']));
    match first_index_of(cl, ':') {
        Some(i) => {
            crate::text::lemma_first_index_of(cl, ':');
            let t = cl.take(i);
            let d = cl.skip(i + 1);
            lemma_replaced_from_free(t, 0);
            lemma_trim_free(replace_all(t, "**"@, Seq::empty()));
            lemma_free_not_bold(trim(replace_all(t, "**"@, Seq::empty())));
            lemma_replaced_from_free(d, 0);
            lemma_trim_free(replace_all(d, "**"@, Seq::empty()));
            lemma_free_not_bold(trim(replace_all(d, "**"@, Seq::empty())));
        },
        None => {
            lemma_replaced_from_free(cl, 0);
            lemma_free_not_bold(replace_all(cl, "**"@, Seq::empty()));
        },
    }
}

proof fn lemma_error_items_unbolded(lines: Seq<Seq<char>>)
    ensures
        forall|k: int| 0 <= k < error_items(lines).len() ==> item_unbolded(#[trigger] error_items(lines)[k]),
    decreases lines.len(),
{
    if lines.len() > 0 {
        lemma_error_items_unbolded(lines.drop_last());
        lemma_error_item_unbolded(lines.last());
        let rest = error_items(lines.drop_last());
        assert forall|k: int| 0 <= k < error_items(lines).len() implies item_unbolded(
            #[trigger] error_items(lines)[k],
        ) by {
            if k < rest.len() {
                assert(error_items(lines)[k] == rest[k]);
            }
        }
    }
}

/// Markdown bold marks are gone from what a reply reports: no error item read from it has
/// `**` in its title or in its detail.
pub proof fn lemma_review_items_unbolded(s: Seq<char>)
    ensures
        review_of(s) matches Some(x) ==> forall|k: int| 0 <= k < x.0.len() ==> {
            &&& !contains_seq((#[trigger] x.0[k]).1, "**"@)
            &&& x.0[k].0 matches Some(t) ==> !contains_seq(t, "**"@)
        },
{
    if let Some(x) = review_of(s) {
        let m = improved_marker(s).unwrap();
        let i = find_from(s, m, 0).unwrap();
        let errors = trim(
            strip_prefixes(strip_prefixes(trim(s.take(i)), "**Errors found:**"@), "Errors found:"@),
        );
        lemma_error_items_unbolded(text_lines(errors));
        assert forall|k: int| 0 <= k < x.0.len() implies item_unbolded(#[trigger] x.0[k]) by {}
    }
}


proof fn lemma_find_from_at(s: Seq<char>, q: Seq<char>, from: int, i: int)
    requires
        0 <= from <= i,
        occurs_at(s, q, i),
        forall|j: int| from <= j < i ==> !#[trigger] occurs_at(s, q, j),
    ensures
        find_from(s, q, from) == Some(i),
{
    crate::text::lemma_find_from_props(s, q, from);
}

/// Text without `*` is left as it is when `**` is removed from it.
proof fn lemma_unbold_plain(s: Seq<char>, from: int)
    requires
        0 <= from <= s.len(),
        forall|k: int| from <= k < s.len() ==> #[trigger] s[k] != '*',
    ensures
        replaced_from(s, "**"@, Seq::empty(), from) == s.subrange(from, s.len() as int),
{
    reveal_strlit("**");
    crate::text::lemma_find_from_props(s, "**"@, from);
    if let Some(i) = find_from(s, "**"@, from) {
        assert(s.subrange(i, i + 2)[0] == s[i]);
    }
}

/// Removing `**` from `p**d**` (with no other `*`) leaves `pd`.
proof fn lemma_unbold_wrapped(p: Seq<char>, d: Seq<char>)
    requires
        d.len() > 0,
        !p.contains('*'),
        !d.contains('*'),
    ensures
        replace_all(p + "**"@ + d + "**"@, "**"@, Seq::empty()) == p + d,
{
    reveal_strlit("**");
    let q = "**"@;
    let s = p + q + d + q;
    let a = p.len() as int;
    let b = a + 2 + d.len();
    assert forall|j: int| 0 <= j < a implies !#[trigger] occurs_at(s, q, j) by {
        assert(s.subrange(j, j + 2)[0] == s[j]);
        assert(s[j] == p[j]);
    }
    assert(s.subrange(a, a + 2) =~= q);
    lemma_find_from_at(s, q, 0, a);
    assert forall|j: int| a + 2 <= j < b implies !#[trigger] occurs_at(s, q, j) by {
        assert(s.subrange(j, j + 2)[0] == s[j]);
        assert(s[j] == d[j - a - 2]);
    }
    assert(s.subrange(b, b + 2) =~= q);
    lemma_find_from_at(s, q, a + 2, b);
    assert(replaced_from(s, q, Seq::empty(), b + 2) == Seq::<char>::empty()) by {
        assert(s.subrange(b + 2, b + 2) =~= Seq::<char>::empty());
    }
    assert(replaced_from(s, q, Seq::empty(), a + 2) =~= d) by {
        assert(s.subrange(a + 2, b) =~= d);
    }
    assert(replaced_from(s, q, Seq::empty(), 0) =~= p + d) by {
        assert(s.subrange(0, a) =~= p);
    }
}

/// Trimming leaves text that neither starts nor ends with whitespace as it is.
proof fn lemma_trim_keeps(s: Seq<char>)
    requires
        s.len() > 0,
        !is_ws(s[0]),
        !is_ws(s.last()),
    ensures
        trim(s) == s,
{
    assert(trim_start(s) == s);
}

/// A space before text that neither starts nor ends with whitespace is trimmed away.
proof fn lemma_trim_after_space(s: Seq<char>)
    requires
        s.len() > 0,
        !is_ws(s[0]),
        !is_ws(s.last()),
    ensures
        trim(seq![' '] + s) == s,
{
    let u = seq![' '] + s;
    assert(u.drop_first() =~= s);
    assert(trim_start(u) == trim_start(s));
    lemma_trim_keeps(s);
}

/// How one error line `- title: rest` is cut, for a title without `:` or `*` and a `rest`
/// that ends in no whitespace: the title, and the trimmed, unbolded rest.
proof fn lemma_error_line_shape(t: Seq<char>, rest: Seq<char>)
    requires
        t.len() > 0,
        rest.len() > 0,
        !is_ws(t[0]),
        !is_ws(t.last()),
        !is_ws(rest.last()),
        !t.contains(':'),
        !t.contains('*'),
    ensures
        error_item(seq!['-', ' '] + t + seq![':', ' '] + rest) == (
            Some(t),
            trim(replace_all(seq![' '] + rest, "**"@, Seq::empty())),
        ),
{
    let line = seq!['-', ' '] + t + seq![':', ' '] + rest;
    let x = t + seq![':', ' '] + rest;
    assert(line.last() == rest.last());
    lemma_trim_keeps(line);
    assert(seq!['-'].is_prefix_of(line));
    assert(line.skip(1) =~= seq![' '] + x);
    let u = seq![' '] + x;
    assert(u[0] == ' ');
    assert(u.subrange(0, 1)[0] == u[0]);
    assert(!seq!['-'].is_prefix_of(u));
    assert(strip_prefixes(line, seq!['-']) == strip_prefixes(u, seq!['-']));
    assert(strip_prefixes(line, seq!['-']) == u);
    assert(!seq!['*'].is_prefix_of(u));
    assert(strip_prefixes(u, seq!['*']) == u);
    assert(x[0] == t[0]);
    assert(x.last() == rest.last());
    lemma_trim_after_space(x);
    let cl = x;
    let i = t.len() as int;
    assert(cl[i] == ':');
    assert forall|j: int| 0 <= j < i implies cl[j] != ':' by {
        assert(cl[j] == t[j]);
    }
    crate::text::lemma_first_index_of_unique(cl, ':', i);
    assert(cl.take(i) =~= t);
    assert(cl.skip(i + 1) =~= seq![' '] + rest);
    assert forall|k: int| 0 <= k < t.len() implies #[trigger] t[k] != '*' by {
        assert(!t.contains('*'));
    }
    lemma_unbold_plain(t, 0);
    assert(t.subrange(0, t.len() as int) =~= t);
    lemma_trim_keeps(t);
}

/// A reported error line `- title: detail` is read as that title and that detail, with
/// markdown bold around the detail dropped: for a title without `:` and a detail (both
/// without `*`, and neither starting nor ending with whitespace), `- title: detail` and
/// `- title: **detail**` both give the title and the detail.
pub proof fn lemma_error_line_read(t: Seq<char>, d: Seq<char>)
    requires
        t.len() > 0,
        d.len() > 0,
        !is_ws(t[0]),
        !is_ws(t.last()),
        !is_ws(d[0]),
        !is_ws(d.last()),
        !t.contains(':'),
        !t.contains('*'),
        !d.contains('*'),
    ensures
        error_item("- "@ + t + ": "@ + d) == (Some(t), d),
        error_item("- "@ + t + ": **"@ + d + "**"@) == (Some(t), d),
{
    reveal_strlit("- ");
    reveal_strlit(": ");
    reveal_strlit(": **");
    reveal_strlit("**");
    lemma_trim_keeps(t);
    assert("- "@ =~= seq!['-', ' ']);
    assert(": "@ =~= seq![':', ' ']);
    lemma_error_line_shape(t, d);
    let sd = seq![' '] + d;
    assert forall|k: int| 0 <= k < sd.len() implies #[trigger] sd[k] != '*' by {
        if k > 0 {
            assert(sd[k] == d[k - 1]);
        }
    }
    lemma_unbold_plain(sd, 0);
    assert(sd.subrange(0, sd.len() as int) =~= sd);
    lemma_trim_after_space(d);
    let rest = "**"@ + d + "**"@;
    assert("- "@ + t + ": **"@ + d + "**"@ =~= seq!['-', ' '] + t + seq![':', ' '] + rest);
    assert(rest.last() == '*');
    lemma_error_line_shape(t, rest);
    assert(!seq![' '].contains('*'));
    lemma_unbold_wrapped(seq![' '], d);
    assert(seq![' '] + rest =~= seq![' '] + "**"@ + d + "**"@);
}

} // verus!
