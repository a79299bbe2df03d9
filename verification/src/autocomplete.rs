//! Autocomplete: trigger detection, bibliography/label caches, suggestion ranking.
use vstd::prelude::*;
use crate::text::{
    rfind_char_in, chars_of, ends_with_at, has_char, is_whitespace, is_ws, last_index_of, lemma_last_index_of,
    lemma_last_index_of_unique, rfind_char, string_of_range, trim_end, trim_end_at, trim_start,
    trim_start_at,
};

verus! {

/// What the user is typing at the cursor, with the partial word typed so far.
pub enum AutocompleteContext {
    Macro(String),
    Citation(String),
    File(String),
    Label(String),
    NoContext,
}

/// Mathematical model of an [`AutocompleteContext`].
pub enum ContextModel {
    Macro(Seq<char>),
    Citation(Seq<char>),
    File(Seq<char>),
    Label(Seq<char>),
    NoContext,
}

impl View for AutocompleteContext {
    type V = ContextModel;

    open spec fn view(&self) -> ContextModel {
        match self {
            AutocompleteContext::Macro(s) => ContextModel::Macro(s@),
            AutocompleteContext::Citation(s) => ContextModel::Citation(s@),
            AutocompleteContext::File(s) => ContextModel::File(s@),
            AutocompleteContext::Label(s) => ContextModel::Label(s@),
            AutocompleteContext::NoContext => ContextModel::NoContext,
        }
    }
}

/// The command before the brace cites a bibliography entry.
pub open spec fn is_citation_cmd(area: Seq<char>) -> bool {
    ||| "\\cite"@.is_suffix_of(area)
    ||| "\\citep"@.is_suffix_of(area)
    ||| "\\citet"@.is_suffix_of(area)
    ||| "\\citealt"@.is_suffix_of(area)
    ||| "\\citealp"@.is_suffix_of(area)
    ||| "\\citeauthor"@.is_suffix_of(area)
    ||| "\\citeyear"@.is_suffix_of(area)
    ||| "\\footcite"@.is_suffix_of(area)
    ||| "\\textcite"@.is_suffix_of(area)
    ||| "\\parencite"@.is_suffix_of(area)
    ||| "\\nocite"@.is_suffix_of(area)
}

/// The command before the brace refers to a label.
pub open spec fn is_label_cmd(area: Seq<char>) -> bool {
    ||| "\\ref"@.is_suffix_of(area)
    ||| "\\cref"@.is_suffix_of(area)
    ||| "\\autoref"@.is_suffix_of(area)
    ||| "\\nameref"@.is_suffix_of(area)
    ||| "\\label"@.is_suffix_of(area)
}

/// The command before the brace takes a file name.
pub open spec fn is_file_cmd(area: Seq<char>) -> bool {
    ||| "\\includegraphics"@.is_suffix_of(area)
    ||| "\\input"@.is_suffix_of(area)
    ||| "\\bibliographystyle"@.is_suffix_of(area)
    ||| "\\bibliography"@.is_suffix_of(area)
}

/// The text before an opening brace, with an optional trailing `[...]` argument skipped.
pub open spec fn command_area(before: Seq<char>) -> Seq<char> {
    let area = trim_end(before);
    if area.len() > 0 && area.last() == ']' {
        match last_index_of(area, '[') {
            Some(k) => if !area.subrange(k, area.len() as int).contains('{') && !area.subrange(
                k,
                area.len() as int,
            ).contains('}') {
                trim_end(area.take(k))
            } else {
                area
            },
            None => area,
        }
    } else {
        area
    }
}

/// The part of a comma-separated argument after its last comma, without leading whitespace.
pub open spec fn last_list_item(term: Seq<char>) -> Seq<char> {
    match last_index_of(term, ',') {
        Some(c) => trim_start(term.subrange(c + 1, term.len() as int)),
        None => term,
    }
}

/// The last line of `t` as `str::lines` yields it (empty when there is none).
pub open spec fn last_line(t: Seq<char>) -> Seq<char> {
    if t.len() == 0 {
        Seq::empty()
    } else {
        let ends_nl = t.last() == '\n';
        let body = if ends_nl {
            t.drop_last()
        } else {
            t
        };
        let start = match last_index_of(body, '\n') {
            Some(i) => i + 1,
            None => 0,
        };
        let line = body.subrange(start, body.len() as int);
        if ends_nl && line.len() > 0 && line.last() == '\r' {
            line.drop_last()
        } else {
            line
        }
    }
}

/// A character that ends a macro name being typed.
pub open spec fn is_macro_stop(c: char) -> bool {
    is_ws(c) || c == '{' || c == '}'
}

/// Brace-argument triggers: `\cite{..`, `\ref{..`, `\input{..`.
pub open spec fn brace_context(t: Seq<char>) -> Option<ContextModel> {
    match last_index_of(t, '{') {
        Some(b) => if t.subrange(b, t.len() as int).contains('}') {
            None
        } else {
            let area = command_area(t.take(b));
            let term = t.subrange(b + 1, t.len() as int);
            if is_citation_cmd(area) {
                Some(ContextModel::Citation(last_list_item(term)))
            } else if is_label_cmd(area) {
                Some(ContextModel::Label(last_list_item(term)))
            } else if is_file_cmd(area) {
                Some(ContextModel::File(term))
            } else {
                None
            }
        },
        None => None,
    }
}

/// Macro triggers: the word from the last `\` or `@` of the current line.
pub open spec fn macro_context(t: Seq<char>) -> ContextModel {
    let line = last_line(t);
    match macro_trigger_index(line) {
        Some(i) => {
            let slice = line.subrange(i, line.len() as int);
            if exists|k: int| 0 <= k < slice.len() && is_macro_stop(#[trigger] slice[k]) {
                ContextModel::NoContext
            } else {
                ContextModel::Macro(slice)
            }
        },
        None => ContextModel::NoContext,
    }
}

/// Position of the trigger symbol (`\` or `@`) closest to the end of `line`.
pub open spec fn macro_trigger_index(line: Seq<char>) -> Option<int> {
    match (last_index_of(line, '\\'), last_index_of(line, '@')) {
        (Some(s), Some(a)) => Some(if s > a {
            s
        } else {
            a
        }),
        (Some(s), None) => Some(s),
        (None, Some(a)) => Some(a),
        (None, None) => None,
    }
}

/// What `detect_context` reports for the text before the cursor.
pub open spec fn spec_detect_context(t: Seq<char>) -> ContextModel {
    match brace_context(t) {
        Some(c) => c,
        None => macro_context(t),
    }
}

fn ends_with_lit(v: &Vec<char>, end: usize, lit: &str) -> (b: bool)
    requires
        end <= v.len(),
    ensures
        b == lit@.is_suffix_of(v@.take(end as int)),
{
    let p = chars_of(lit);
    ends_with_at(v, end, &p)
}

fn citation_cmd_at(v: &Vec<char>, end: usize) -> (b: bool)
    requires
        end <= v.len(),
    ensures
        b == is_citation_cmd(v@.take(end as int)),
{
    ends_with_lit(v, end, "\\cite") || ends_with_lit(v, end, "\\citep") || ends_with_lit(
        v,
        end,
        "\\citet",
    ) || ends_with_lit(v, end, "\\citealt") || ends_with_lit(v, end, "\\citealp")
        || ends_with_lit(v, end, "\\citeauthor") || ends_with_lit(v, end, "\\citeyear")
        || ends_with_lit(v, end, "\\footcite") || ends_with_lit(v, end, "\\textcite")
        || ends_with_lit(v, end, "\\parencite") || ends_with_lit(v, end, "\\nocite")
}

fn label_cmd_at(v: &Vec<char>, end: usize) -> (b: bool)
    requires
        end <= v.len(),
    ensures
        b == is_label_cmd(v@.take(end as int)),
{
    ends_with_lit(v, end, "\\ref") || ends_with_lit(v, end, "\\cref") || ends_with_lit(
        v,
        end,
        "\\autoref",
    ) || ends_with_lit(v, end, "\\nameref") || ends_with_lit(v, end, "\\label")
}

fn file_cmd_at(v: &Vec<char>, end: usize) -> (b: bool)
    requires
        end <= v.len(),
    ensures
        b == is_file_cmd(v@.take(end as int)),
{
    ends_with_lit(v, end, "\\includegraphics") || ends_with_lit(v, end, "\\input")
        || ends_with_lit(v, end, "\\bibliographystyle") || ends_with_lit(v, end, "\\bibliography")
}

/// End index of the command area before the brace at `b`.
fn command_area_end(v: &Vec<char>, b: usize) -> (e: usize)
    requires
        b <= v.len(),
    ensures
        e <= b,
        v@.take(e as int) == command_area(v@.take(b as int)),
{
    let e0 = trim_end_at(v, b);
    let ghost area = v@.take(e0 as int);
    assert(area == trim_end(v@.take(b as int)));
    if e0 > 0 && v[e0 - 1] == ']' {
        match rfind_char(v, e0, '[') {
            Some(k) => {
                let has_open = has_char(v, k, e0, '{');
                let has_close = has_char(v, k, e0, '}');
                assert(area.subrange(k as int, area.len() as int) == v@.subrange(
                    k as int,
                    e0 as int,
                ));
                if !has_open && !has_close {
                    let e1 = trim_end_at(v, k);
                    assert(area.take(k as int) == v@.take(k as int));
                    e1
                } else {
                    e0
                }
            },
            None => e0,
        }
    } else {
        e0
    }
}

/// Start index (in `v`) of the last list item of `v[start..]`.
fn last_list_item_start(v: &Vec<char>, start: usize) -> (s: usize)
    requires
        start <= v.len(),
    ensures
        start <= s <= v.len(),
        v@.subrange(s as int, v.len() as int) == last_list_item(
            v@.subrange(start as int, v.len() as int),
        ),
{
    let ghost term = v@.subrange(start as int, v.len() as int);
    let n = v.len();
    let mut i = n;
    while i > start
        invariant
            start <= i <= n == v.len(),
            term == v@.subrange(start as int, n as int),
            forall|j: int| i <= j < n ==> v@[j] != ',',
        decreases i,
    {
        if v[i - 1] == ',' {
            proof {
                lemma_last_index_of_unique(term, ',', i - 1 - start);
                assert(term.subrange(i - start, term.len() as int) == v@.subrange(
                    i as int,
                    n as int,
                ));
            }
            return trim_start_at(v, i, n);
        }
        i = i - 1;
    }
    proof {
        lemma_last_index_of(term, ',');
        if last_index_of(term, ',') is Some {
            let c = last_index_of(term, ',')->0;
            assert(v@[start + c] == ',');
        }
    }
    start
}

/// Bounds `[lo, hi)` of the last line of `v` within `v` (before stripping a `\r`).
fn last_line_bounds(v: &Vec<char>) -> (r: (usize, usize))
    ensures
        r.0 <= r.1 <= v.len(),
        v@.subrange(r.0 as int, r.1 as int) == last_line(v@),
{
    let n = v.len();
    if n == 0 {
        return (0, 0);
    }
    let ends_nl = v[n - 1] == '\n';
    let body_end = if ends_nl {
        n - 1
    } else {
        n
    };
    let ghost body = if ends_nl {
        v@.drop_last()
    } else {
        v@
    };
    assert(body == v@.take(body_end as int));
    let start = match rfind_char(v, body_end, '\n') {
        Some(i) => i + 1,
        None => 0,
    };
    assert(body.subrange(start as int, body.len() as int) == v@.subrange(
        start as int,
        body_end as int,
    ));
    if ends_nl && body_end > start && v[body_end - 1] == '\r' {
        (start, body_end - 1)
    } else {
        (start, body_end)
    }
}

fn brace_context_of(v: &Vec<char>) -> (r: Option<AutocompleteContext>)
    ensures
        r matches Some(c) ==> brace_context(v@) == Some(c@),
        r is None ==> brace_context(v@) is None,
{
    let n = v.len();
    proof {
        assert(v@.take(n as int) == v@);
    }
    if let Some(b) = rfind_char(v, n, '{') {
        if !has_char(v, b, n, '}') {
            let area_end = command_area_end(v, b);
            if citation_cmd_at(v, area_end) {
                let s = last_list_item_start(v, b + 1);
                return Some(AutocompleteContext::Citation(string_of_range(v, s, n)));
            } else if label_cmd_at(v, area_end) {
                let s = last_list_item_start(v, b + 1);
                return Some(AutocompleteContext::Label(string_of_range(v, s, n)));
            } else if file_cmd_at(v, area_end) {
                return Some(AutocompleteContext::File(string_of_range(v, b + 1, n)));
            }
        }
    }
    None
}

fn macro_context_of(v: &Vec<char>) -> (r: AutocompleteContext)
    ensures
        r@ == macro_context(v@),
{
    let (lo, hi) = last_line_bounds(v);
    let ghost line = last_line(v@);
    let sl = rfind_char_in(v, lo, hi, '\\');
    let at = rfind_char_in(v, lo, hi, '@');
    let idx = match (sl, at) {
        (Some(s), Some(a)) => if s > a {
            s
        } else {
            a
        },
        (Some(s), None) => s,
        (None, Some(a)) => a,
        (None, None) => {
            return AutocompleteContext::NoContext;
        },
    };
    let mut k = idx;
    while k < hi
        invariant
            lo <= idx <= k <= hi <= v.len(),
            line == v@.subrange(lo as int, hi as int),
            macro_trigger_index(line) == Some(idx - lo),
            line == last_line(v@),
            forall|j: int| idx <= j < k ==> !is_macro_stop(#[trigger] v@[j]),
        decreases hi - k,
    {
        let c = v[k];
        if is_whitespace(c) || c == '{' || c == '}' {
            proof {
                let slice = line.subrange(idx - lo, line.len() as int);
                assert(slice[k - idx] == c);
                assert(is_macro_stop(slice[k - idx]));
            }
            return AutocompleteContext::NoContext;
        }
        k = k + 1;
    }
    proof {
        let slice = line.subrange(idx - lo, line.len() as int);
        assert(slice == v@.subrange(idx as int, hi as int));
        assert forall|j: int| 0 <= j < slice.len() implies !is_macro_stop(#[trigger] slice[j]) by {
            assert(slice[j] == v@[idx + j]);
        }
    }
    AutocompleteContext::Macro(string_of_range(v, idx, hi))
}

/// Classifies what the user is typing, given the text up to the cursor.
pub fn detect_context(text_up_to_cursor: &str) -> (ctx: AutocompleteContext)
    ensures
        ctx@ == spec_detect_context(text_up_to_cursor@),
{
    let v = chars_of(text_up_to_cursor);
    match brace_context_of(&v) {
        Some(c) => c,
        None => macro_context_of(&v),
    }
}


/// The natbib and biblatex commands whose brace argument is a bibliography key.
pub open spec fn citation_commands() -> Seq<Seq<char>> {
    seq![
        "\\cite"@,
        "\\citep"@,
        "\\citet"@,
        "\\citealt"@,
        "\\citealp"@,
        "\\citeauthor"@,
        "\\citeyear"@,
        "\\footcite"@,
        "\\textcite"@,
        "\\parencite"@,
        "\\nocite"@,
    ]
}

/// The commands whose brace argument is a label name.
pub open spec fn label_commands() -> Seq<Seq<char>> {
    seq!["\\ref"@, "\\cref"@, "\\autoref"@, "\\nameref"@, "\\label"@]
}

/// Anatomy of `p`, a command name, `{` and an unfinished argument `w`: the last brace is the
/// one after the command, nothing closes it, and the command area is `p` and the command.
proof fn lemma_open_brace_argument(p: Seq<char>, cmd: Seq<char>, w: Seq<char>)
    requires
        cmd.len() > 0,
        !is_ws(cmd.last()),
        cmd.last() != ']',
        !w.contains('{'),
        !w.contains('}'),
    ensures
        ({
            let t = p + cmd + "{"@ + w;
            let b = (p.len() + cmd.len()) as int;
            &&& last_index_of(t, '{') == Some(b)
            &&& !t.subrange(b, t.len() as int).contains('}')
            &&& command_area(t.take(b)) == p + cmd
            &&& t.subrange(b + 1, t.len() as int) == w
        }),
{
    reveal_strlit("{");
    let t = p + cmd + "{"@ + w;
    let b = (p.len() + cmd.len()) as int;
    assert(t[b] == '{');
    assert forall|j: int| b < j < t.len() implies t[j] != '{' by {
        assert(t[j] == w[j - b - 1]);
    }
    lemma_last_index_of_unique(t, '{', b);
    assert forall|j: int| 0 <= j < t.len() - b implies t.subrange(b, t.len() as int)[j] != '}' by {
        if j > 0 {
            assert(t.subrange(b, t.len() as int)[j] == w[j - 1]);
        }
    }
    let area = t.take(b);
    assert(area =~= p + cmd);
    assert(area.last() == cmd.last());
    assert(trim_end(area) == area);
    assert(t.subrange(b + 1, t.len() as int) =~= w);
}

/// A sequence ends with itself appended to anything.
proof fn lemma_suffix_of_concat(p: Seq<char>, x: Seq<char>)
    ensures
        x.is_suffix_of(p + x),
{
    assert((p + x).subrange(p.len() as int, (p + x).len() as int) =~= x);
}

/// Text that ends in one of the citation commands, an opening brace and a partly typed key
/// (no comma, no brace) asks for citation keys, with that partial key as the search term.
pub proof fn lemma_citation_command_detected(p: Seq<char>, k: int, w: Seq<char>)
    requires
        0 <= k < citation_commands().len(),
        !w.contains(','),
        !w.contains('{'),
        !w.contains('}'),
    ensures
        spec_detect_context(p + citation_commands()[k] + "{"@ + w) == ContextModel::Citation(w),
{
    reveal_strlit("\\cite");
    reveal_strlit("\\citep");
    reveal_strlit("\\citet");
    reveal_strlit("\\citealt");
    reveal_strlit("\\citealp");
    reveal_strlit("\\citeauthor");
    reveal_strlit("\\citeyear");
    reveal_strlit("\\footcite");
    reveal_strlit("\\textcite");
    reveal_strlit("\\parencite");
    reveal_strlit("\\nocite");
    let cmd = citation_commands()[k];
    assert(cmd.len() > 0 && cmd.last() == 't' || cmd.last() == 'p' || cmd.last() == 'r'
        || cmd.last() == 'e');
    lemma_open_brace_argument(p, cmd, w);
    lemma_suffix_of_concat(p, cmd);
    assert(is_citation_cmd(p + cmd));
    lemma_last_index_of(w, ',');
    if last_index_of(w, ',') is Some {
        assert(w.contains(','));
    }
}

/// Text that ends in one of the label commands, an opening brace and a partly typed label
/// (no comma, no brace) asks for label names, with that partial label as the search term.
pub proof fn lemma_label_command_detected(p: Seq<char>, k: int, w: Seq<char>)
    requires
        0 <= k < label_commands().len(),
        !w.contains(','),
        !w.contains('{'),
        !w.contains('}'),
    ensures
        spec_detect_context(p + label_commands()[k] + "{"@ + w) == ContextModel::Label(w),
{
    reveal_strlit("\\ref");
    reveal_strlit("\\cref");
    reveal_strlit("\\autoref");
    reveal_strlit("\\nameref");
    reveal_strlit("\\label");
    reveal_strlit("\\cite");
    reveal_strlit("\\citep");
    reveal_strlit("\\citet");
    reveal_strlit("\\citealt");
    reveal_strlit("\\citealp");
    reveal_strlit("\\citeauthor");
    reveal_strlit("\\citeyear");
    reveal_strlit("\\footcite");
    reveal_strlit("\\textcite");
    reveal_strlit("\\parencite");
    reveal_strlit("\\nocite");
    let cmd = label_commands()[k];
    assert(cmd.len() > 0 && (cmd.last() == 'f' || cmd.last() == 'l'));
    lemma_open_brace_argument(p, cmd, w);
    lemma_suffix_of_concat(p, cmd);
    assert(is_label_cmd(p + cmd));
    let area = p + cmd;
    assert forall|x: Seq<char>| x.len() > 0 && #[trigger] x.is_suffix_of(area) implies x.last()
        == area.last() by {
        assert(x.last() == area.subrange(area.len() - x.len(), area.len() as int).last());
    }
    assert(!is_citation_cmd(area));
    lemma_last_index_of(w, ',');
    if last_index_of(w, ',') is Some {
        assert(w.contains(','));
    }
}

/// The commands whose brace argument is a file name.
pub open spec fn file_commands() -> Seq<Seq<char>> {
    seq!["\\includegraphics"@, "\\input"@, "\\bibliographystyle"@, "\\bibliography"@]
}

/// Text that ends in one of the file commands, an opening brace and a partly typed file
/// name (no brace) asks for file names, with all of that partial name as the search term.
pub proof fn lemma_file_command_detected(p: Seq<char>, k: int, w: Seq<char>)
    requires
        0 <= k < file_commands().len(),
        !w.contains('{'),
        !w.contains('}'),
    ensures
        spec_detect_context(p + file_commands()[k] + "{"@ + w) == ContextModel::File(w),
{
    reveal_strlit("\\includegraphics");
    reveal_strlit("\\input");
    reveal_strlit("\\bibliographystyle");
    reveal_strlit("\\bibliography");
    reveal_strlit("\\ref");
    reveal_strlit("\\cref");
    reveal_strlit("\\autoref");
    reveal_strlit("\\nameref");
    reveal_strlit("\\label");
    reveal_strlit("\\cite");
    reveal_strlit("\\citep");
    reveal_strlit("\\citet");
    reveal_strlit("\\citealt");
    reveal_strlit("\\citealp");
    reveal_strlit("\\citeauthor");
    reveal_strlit("\\citeyear");
    reveal_strlit("\\footcite");
    reveal_strlit("\\textcite");
    reveal_strlit("\\parencite");
    reveal_strlit("\\nocite");
    let cmd = file_commands()[k];
    assert(cmd.len() >= 2 && (cmd.last() == 's' || cmd.last() == 't' || cmd.last() == 'e'
        || cmd.last() == 'y'));
    lemma_open_brace_argument(p, cmd, w);
    lemma_suffix_of_concat(p, cmd);
    let area = p + cmd;
    assert(is_file_cmd(area));
    assert(area[area.len() - 2] == cmd[cmd.len() - 2]);
    assert forall|x: Seq<char>| x.len() >= 2 && #[trigger] x.is_suffix_of(area) implies x.last()
        == area.last() && x[x.len() - 2] == area[area.len() - 2] by {
        let tail = area.subrange(area.len() - x.len(), area.len() as int);
        assert(x.last() == tail.last());
        assert(x[x.len() - 2] == tail[x.len() - 2]);
    }
    assert(!is_citation_cmd(area));
    assert(!is_label_cmd(area));
}

} // verus!
