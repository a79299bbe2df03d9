//! Syntax highlighting: a LaTeX lexer that splits text into styled spans, and the
//! classification of terminal log lines.
use vstd::prelude::*;
use crate::text::{
    chars_of, contains_seq, find_char, find_seq_from, first_index_of, is_whitespace, is_ws,
    lemma_first_index_of, string_of, string_of_range, vec_eq_str, vec_ends_with_str,
};

verus! {

/// Whether `c` has the Unicode `Alphabetic` property.
pub uninterp spec fn is_alphabetic_char(c: char) -> bool;

/// A letter that continues a command name: on ASCII a Latin letter, beyond ASCII what
/// `char::is_alphabetic` reports (the named Unicode property).
pub open spec fn is_command_letter(c: char) -> bool {
    if '\u{80}' > c {
        ('a' <= c && c <= 'z') || ('A' <= c && c <= 'Z')
    } else {
        is_alphabetic_char(c)
    }
}

/// `char::is_alphabetic`: the character has the Unicode `Alphabetic` property. On ASCII
/// characters this is exactly the Latin letters; beyond ASCII the result is the named
/// property, which this library does not spell out.
#[verifier::external_body]
fn is_alphabetic(c: char) -> (b: bool)
    ensures
        b == is_alphabetic_char(c),
        b == is_command_letter(c),
{
    c.is_alphabetic()
}

/// The colour role of a highlighted span.
#[derive(Clone, Copy, Debug, PartialEq, Eq, Structural)]
pub enum TokenStyle {
    Normal,
    Command,
    Comment,
    Bracket,
    Math,
}

/// The lexer's state between characters.
#[derive(Clone, Copy, Debug, PartialEq, Eq, Structural)]
pub enum LexerState {
    Normal,
    /// Just saw `\`, waiting to decide what follows.
    Backslash,
    /// Reading the letters (or `@`) of a command name.
    Command,
    /// Inside a `%` comment, until the end of the line.
    Comment,
    /// Inside `$..$`, until an unescaped `$`.
    InlineMath,
    /// Inside `$$..$$` or `\[..\]`.
    DisplayMath,
    /// Saw `\verb`, waiting for the delimiter.
    VerbatimCmdWait,
    /// Inside `\verb`, until the saved delimiter.
    VerbatimCmd(char),
    /// Inside a verbatim environment, until its `\end{..}`.
    VerbatimBlock,
    /// Saw `\begin` (`true`) or `\end` (`false`), waiting for `{`.
    EnvNameWait(bool),
    /// Inside the braces of `\begin{..}` (`true`) or `\end{..}` (`false`).
    EnvName(bool),
}

/// A piece of text painted in one style.
pub struct HighlightSpan {
    pub text: String,
    pub style: TokenStyle,
}

/// Model of a span: its characters and its style.
pub open spec fn span_view(s: HighlightSpan) -> (Seq<char>, TokenStyle) {
    (s.text@, s.style)
}

/// Model of a list of spans.
pub open spec fn spans_view(v: Seq<HighlightSpan>) -> Seq<(Seq<char>, TokenStyle)> {
    v.map_values(|s: HighlightSpan| span_view(s))
}

/// The lexer's whole state while it scans: mode, pending token, spans emitted so far,
/// position, and whether the scan is still well defined.
pub struct LexSnapshot {
    pub mode: LexerState,
    pub token: Seq<char>,
    pub out: Seq<(Seq<char>, TokenStyle)>,
    pub pos: int,
    pub ok: bool,
}

/// Emits the pending token (when not empty) in `style`.
pub open spec fn flush(
    out: Seq<(Seq<char>, TokenStyle)>,
    token: Seq<char>,
    style: TokenStyle,
) -> Seq<(Seq<char>, TokenStyle)> {
    if token.len() > 0 {
        out.push((token, style))
    } else {
        out
    }
}

pub open spec fn is_bracket_char(c: char) -> bool {
    c == '{' || c == '}' || c == '[' || c == ']'
}

pub open spec fn is_verbatim_env(name: Seq<char>) -> bool {
    name == "verbatim"@ || name == "lstlisting"@ || name == "minted"@
}

/// The `\end{..}` tags that close a verbatim environment, in the order they are tried.
pub open spec fn verbatim_end_tag(k: int) -> Seq<char> {
    if k == 0 {
        "\\end{verbatim}"@
    } else if k == 1 {
        "\\end{lstlisting}"@
    } else {
        "\\end{minted}"@
    }
}

/// The environment name inside `verbatim_end_tag(k)`.
pub open spec fn verbatim_env_name(k: int) -> Seq<char> {
    if k == 0 {
        "verbatim"@
    } else if k == 1 {
        "lstlisting"@
    } else {
        "minted"@
    }
}

/// The first closing tag (among the three) that `token` ends with.
pub open spec fn verbatim_end_of(token: Seq<char>) -> Option<int> {
    if verbatim_end_tag(0).is_suffix_of(token) {
        Some(0)
    } else if verbatim_end_tag(1).is_suffix_of(token) {
        Some(1)
    } else if verbatim_end_tag(2).is_suffix_of(token) {
        Some(2)
    } else {
        None
    }
}

/// One step of the lexer at position `s.pos` (which may or may not consume the character).
pub open spec fn lex_step(c: Seq<char>, s: LexSnapshot) -> LexSnapshot {
    let ch = c[s.pos];
    let tok = s.token;
    let out = s.out;
    let pos = s.pos;
    match s.mode {
        LexerState::Normal => if ch == '%' {
            LexSnapshot {
                mode: LexerState::Comment,
                token: seq![ch],
                out: flush(out, tok, TokenStyle::Normal),
                pos: pos + 1,
                ..s
            }
        } else if ch == '\\' {
            LexSnapshot {
                mode: LexerState::Backslash,
                token: seq![ch],
                out: flush(out, tok, TokenStyle::Normal),
                pos: pos + 1,
                ..s
            }
        } else if ch == '$' {
            if pos + 1 < c.len() && c[pos + 1] == '$' {
                LexSnapshot {
                    mode: LexerState::DisplayMath,
                    token: seq!['$', '$'],
                    out: flush(out, tok, TokenStyle::Normal),
                    pos: pos + 2,
                    ..s
                }
            } else {
                LexSnapshot {
                    mode: LexerState::InlineMath,
                    token: seq![ch],
                    out: flush(out, tok, TokenStyle::Normal),
                    pos: pos + 1,
                    ..s
                }
            }
        } else if is_bracket_char(ch) {
            LexSnapshot {
                token: Seq::empty(),
                out: flush(out, tok, TokenStyle::Normal).push((seq![ch], TokenStyle::Bracket)),
                pos: pos + 1,
                ..s
            }
        } else {
            LexSnapshot { token: tok.push(ch), pos: pos + 1, ..s }
        },
        LexerState::Backslash => if is_command_letter(ch) || ch == '@' {
            LexSnapshot { mode: LexerState::Command, token: tok.push(ch), pos: pos + 1, ..s }
        } else if ch == '[' {
            LexSnapshot { mode: LexerState::DisplayMath, token: tok.push(ch), pos: pos + 1, ..s }
        } else {
            LexSnapshot {
                mode: LexerState::Normal,
                token: Seq::empty(),
                out: flush(out, tok.push(ch), TokenStyle::Command),
                pos: pos + 1,
                ..s
            }
        },
        LexerState::Command => if is_command_letter(ch) || ch == '@' {
            LexSnapshot { token: tok.push(ch), pos: pos + 1, ..s }
        } else if ch == '*' {
            LexSnapshot {
                mode: if tok.push(ch) == "\\verb*"@ {
                    LexerState::VerbatimCmdWait
                } else {
                    LexerState::Normal
                },
                token: Seq::empty(),
                out: flush(out, tok.push(ch), TokenStyle::Command),
                pos: pos + 1,
                ..s
            }
        } else {
            LexSnapshot {
                mode: if tok == "\\verb"@ {
                    LexerState::VerbatimCmdWait
                } else if tok == "\\begin"@ {
                    LexerState::EnvNameWait(true)
                } else if tok == "\\end"@ {
                    LexerState::EnvNameWait(false)
                } else {
                    LexerState::Normal
                },
                token: Seq::empty(),
                out: flush(out, tok, TokenStyle::Command),
                ..s
            }
        },
        LexerState::Comment => if ch == '\n' {
            LexSnapshot {
                mode: LexerState::Normal,
                token: Seq::empty(),
                out: flush(out, tok.push(ch), TokenStyle::Comment),
                pos: pos + 1,
                ..s
            }
        } else {
            LexSnapshot { token: tok.push(ch), pos: pos + 1, ..s }
        },
        LexerState::InlineMath => {
            let t2 = tok.push(ch);
            if ch == '$' && t2.len() >= 2 && !"\\$"@.is_suffix_of(t2) {
                LexSnapshot {
                    mode: LexerState::Normal,
                    token: Seq::empty(),
                    out: flush(out, t2, TokenStyle::Math),
                    pos: pos + 1,
                    ..s
                }
            } else {
                LexSnapshot { token: t2, pos: pos + 1, ..s }
            }
        },
        LexerState::DisplayMath => {
            let t2 = tok.push(ch);
            let dollar_end = ch == '$' && "$$"@.is_suffix_of(t2) && !"\\$$"@.is_suffix_of(t2);
            let bracket_end = ch == ']' && "\\]"@.is_suffix_of(t2) && !"\\\\]"@.is_suffix_of(t2);
            if dollar_end || bracket_end {
                LexSnapshot {
                    mode: LexerState::Normal,
                    token: Seq::empty(),
                    out: flush(out, t2, TokenStyle::Math),
                    pos: pos + 1,
                    ..s
                }
            } else {
                LexSnapshot { token: t2, pos: pos + 1, ..s }
            }
        },
        LexerState::VerbatimCmdWait => if ch == '*' {
            LexSnapshot {
                token: Seq::empty(),
                out: flush(out, tok.push(ch), TokenStyle::Command),
                pos: pos + 1,
                ..s
            }
        } else if is_ws(ch) {
            LexSnapshot {
                token: Seq::empty(),
                out: flush(out, tok.push(ch), TokenStyle::Normal),
                pos: pos + 1,
                ..s
            }
        } else {
            LexSnapshot {
                mode: LexerState::VerbatimCmd(ch),
                token: Seq::empty(),
                out: flush(out, tok.push(ch), TokenStyle::Bracket),
                pos: pos + 1,
                ..s
            }
        },
        LexerState::VerbatimCmd(d) => if ch == d {
            LexSnapshot {
                mode: LexerState::Normal,
                token: Seq::empty(),
                out: flush(out, tok, TokenStyle::Math).push((seq![ch], TokenStyle::Bracket)),
                pos: pos + 1,
                // The content is cut one byte before the end of the token.
                ok: s.ok && '\u{80}' > d,
                ..s
            }
        } else {
            LexSnapshot { token: tok.push(ch), pos: pos + 1, ..s }
        },
        LexerState::EnvNameWait(b) => if is_ws(ch) {
            LexSnapshot {
                token: Seq::empty(),
                out: flush(out, tok.push(ch), TokenStyle::Normal),
                pos: pos + 1,
                ..s
            }
        } else if ch == '{' {
            LexSnapshot {
                mode: LexerState::EnvName(b),
                token: Seq::empty(),
                out: flush(out, tok.push(ch), TokenStyle::Bracket),
                pos: pos + 1,
                ..s
            }
        } else {
            LexSnapshot { mode: LexerState::Normal, ..s }
        },
        LexerState::EnvName(b) => if ch == '}' {
            LexSnapshot {
                mode: if is_verbatim_env(tok) && b {
                    LexerState::VerbatimBlock
                } else {
                    LexerState::Normal
                },
                token: Seq::empty(),
                out: flush(out, tok, TokenStyle::Command).push((seq![ch], TokenStyle::Bracket)),
                pos: pos + 1,
                ..s
            }
        } else if ch == '\\' || ch == '{' || ch == '\n' {
            LexSnapshot {
                mode: LexerState::Normal,
                token: Seq::empty(),
                out: flush(out, tok, TokenStyle::Normal),
                ..s
            }
        } else {
            LexSnapshot { token: tok.push(ch), pos: pos + 1, ..s }
        },
        LexerState::VerbatimBlock => {
            let t2 = tok.push(ch);
            match verbatim_end_of(t2) {
                Some(k) => {
                    let e = verbatim_end_tag(k);
                    LexSnapshot {
                        mode: LexerState::Normal,
                        token: Seq::empty(),
                        out: flush(out, t2.take(t2.len() - e.len()), TokenStyle::Math).push(
                            ("\\end"@, TokenStyle::Command),
                        ).push(("{"@, TokenStyle::Bracket)).push(
                            (verbatim_env_name(k), TokenStyle::Command),
                        ).push(("}"@, TokenStyle::Bracket)),
                        pos: pos + 1,
                        ..s
                    }
                },
                None => LexSnapshot { token: t2, pos: pos + 1, ..s },
            }
        },
    }
}

/// How many non-consuming steps a state may still take before it consumes a character.
pub open spec fn mode_rank(m: LexerState) -> int {
    match m {
        LexerState::Command => 3,
        LexerState::EnvNameWait(_) => 2,
        LexerState::EnvName(_) => 1,
        _ => 0,
    }
}

pub open spec fn lex_measure(c: Seq<char>, s: LexSnapshot) -> int {
    4 * (c.len() - s.pos) + mode_rank(s.mode)
}

pub proof fn lemma_lex_step_progress(c: Seq<char>, s: LexSnapshot)
    requires
        0 <= s.pos < c.len(),
    ensures
        lex_measure(c, lex_step(c, s)) < lex_measure(c, s),
        s.pos <= lex_step(c, s).pos <= c.len(),
{
}

/// The style in which a token still pending at the end of the text is painted.
pub open spec fn final_style(m: LexerState) -> TokenStyle {
    match m {
        LexerState::Normal | LexerState::EnvNameWait(_) => TokenStyle::Normal,
        LexerState::Backslash | LexerState::Command | LexerState::EnvName(_) => TokenStyle::Command,
        LexerState::Comment => TokenStyle::Comment,
        _ => TokenStyle::Math,
    }
}

/// Runs the lexer from `s` to the end of the text.
pub open spec fn lex_run(c: Seq<char>, s: LexSnapshot) -> LexSnapshot
    decreases lex_measure(c, s),
    when 0 <= s.pos
{
    if s.pos >= c.len() {
        LexSnapshot { token: Seq::empty(), out: flush(s.out, s.token, final_style(s.mode)), ..s }
    } else {
        proof {
            lemma_lex_step_progress(c, s);
        }
        lex_run(c, lex_step(c, s))
    }
}

pub open spec fn lex_start() -> LexSnapshot {
    LexSnapshot {
        mode: LexerState::Normal,
        token: Seq::empty(),
        out: Seq::empty(),
        pos: 0,
        ok: true,
    }
}

/// The spans the LaTeX highlighter paints for `t`.
pub open spec fn spec_highlight(t: Seq<char>) -> Seq<(Seq<char>, TokenStyle)> {
    lex_run(t, lex_start()).out
}

/// The highlighter is defined on `t`: no `\verb` with a delimiter outside ASCII is closed
/// (the pending content would be cut inside the delimiter's encoding).
pub open spec fn highlight_defined(t: Seq<char>) -> bool {
    lex_run(t, lex_start()).ok
}

/// The lexer's executable state.
struct Lexer {
    mode: LexerState,
    token: Vec<char>,
    out: Vec<HighlightSpan>,
    pos: usize,
    ok: bool,
}

impl Lexer {
    spec fn snapshot(&self) -> LexSnapshot {
        LexSnapshot {
            mode: self.mode,
            token: self.token@,
            out: spans_view(self.out@),
            pos: self.pos as int,
            ok: self.ok,
        }
    }
}

proof fn lemma_spans_push(v: Seq<HighlightSpan>, x: HighlightSpan)
    ensures
        spans_view(v.push(x)) == spans_view(v).push(span_view(x)),
{
    assert(spans_view(v.push(x)) =~= spans_view(v).push(span_view(x)));
}

fn emit(out: &mut Vec<HighlightSpan>, text: String, style: TokenStyle)
    ensures
        spans_view(final(out)@) == spans_view(old(out)@).push((text@, style)),
{
    let sp = HighlightSpan { text, style };
    proof {
        lemma_spans_push(out@, sp);
    }
    out.push(sp);
}

fn emit_str(out: &mut Vec<HighlightSpan>, lit: &str, style: TokenStyle)
    ensures
        spans_view(final(out)@) == spans_view(old(out)@).push((lit@, style)),
{
    let v = chars_of(lit);
    emit(out, string_of(&v), style);
}

/// Emits the pending token (when not empty) and clears it.
fn flush_token(out: &mut Vec<HighlightSpan>, token: &mut Vec<char>, style: TokenStyle)
    ensures
        spans_view(final(out)@) == flush(spans_view(old(out)@), old(token)@, style),
        final(token)@ == Seq::<char>::empty(),
{
    if token.len() > 0 {
        emit(out, string_of(token), style);
    }
    token.clear();
}

fn step_normal(c: &Vec<char>, st: &mut Lexer)
    requires
        old(st).pos < c.len(),
        old(st).mode == LexerState::Normal,
    ensures
        final(st).snapshot() == lex_step(c@, old(st).snapshot()),
{
    let ch = c[st.pos];
    if ch == '%' {
        flush_token(&mut st.out, &mut st.token, TokenStyle::Normal);
        st.token.push(ch);
        st.mode = LexerState::Comment;
        st.pos = st.pos + 1;
    } else if ch == '\\' {
        flush_token(&mut st.out, &mut st.token, TokenStyle::Normal);
        st.token.push(ch);
        st.mode = LexerState::Backslash;
        st.pos = st.pos + 1;
    } else if ch == '$' {
        flush_token(&mut st.out, &mut st.token, TokenStyle::Normal);
        st.token.push(ch);
        if st.pos + 1 < c.len() && c[st.pos + 1] == '$' {
            st.token.push('$');
            st.mode = LexerState::DisplayMath;
            st.pos = st.pos + 2;
            assert(st.token@ == seq!['$', '$']);
        } else {
            st.mode = LexerState::InlineMath;
            st.pos = st.pos + 1;
        }
    } else if ch == '{' || ch == '}' || ch == '[' || ch == ']' {
        flush_token(&mut st.out, &mut st.token, TokenStyle::Normal);
        st.token.push(ch);
        flush_token(&mut st.out, &mut st.token, TokenStyle::Bracket);
        st.pos = st.pos + 1;
    } else {
        st.token.push(ch);
        st.pos = st.pos + 1;
    }
}

fn step_command(c: &Vec<char>, st: &mut Lexer)
    requires
        old(st).pos < c.len(),
        old(st).mode == LexerState::Command || old(st).mode == LexerState::Backslash,
    ensures
        final(st).snapshot() == lex_step(c@, old(st).snapshot()),
{
    let ch = c[st.pos];
    if st.mode == LexerState::Backslash {
        if is_alphabetic(ch) || ch == '@' {
            st.token.push(ch);
            st.mode = LexerState::Command;
            st.pos = st.pos + 1;
        } else if ch == '[' {
            st.token.push(ch);
            st.mode = LexerState::DisplayMath;
            st.pos = st.pos + 1;
        } else {
            st.token.push(ch);
            flush_token(&mut st.out, &mut st.token, TokenStyle::Command);
            st.mode = LexerState::Normal;
            st.pos = st.pos + 1;
        }
    } else {
        if is_alphabetic(ch) || ch == '@' {
            st.token.push(ch);
            st.pos = st.pos + 1;
        } else if ch == '*' {
            st.token.push(ch);
            st.pos = st.pos + 1;
            let is_verb = vec_eq_str(&st.token, "\\verb*");
            flush_token(&mut st.out, &mut st.token, TokenStyle::Command);
            if is_verb {
                st.mode = LexerState::VerbatimCmdWait;
            } else {
                st.mode = LexerState::Normal;
            }
        } else {
            let is_verb = vec_eq_str(&st.token, "\\verb");
            let is_begin = vec_eq_str(&st.token, "\\begin");
            let is_end = vec_eq_str(&st.token, "\\end");
            flush_token(&mut st.out, &mut st.token, TokenStyle::Command);
            if is_verb {
                st.mode = LexerState::VerbatimCmdWait;
            } else if is_begin {
                st.mode = LexerState::EnvNameWait(true);
            } else if is_end {
                st.mode = LexerState::EnvNameWait(false);
            } else {
                st.mode = LexerState::Normal;
            }
        }
    }
}

fn step_math(c: &Vec<char>, st: &mut Lexer)
    requires
        old(st).pos < c.len(),
        old(st).mode == LexerState::Comment || old(st).mode == LexerState::InlineMath
            || old(st).mode == LexerState::DisplayMath,
    ensures
        final(st).snapshot() == lex_step(c@, old(st).snapshot()),
{
    let ch = c[st.pos];
    st.token.push(ch);
    st.pos = st.pos + 1;
    let close = if st.mode == LexerState::Comment {
        ch == '\n'
    } else if st.mode == LexerState::InlineMath {
        ch == '$' && st.token.len() >= 2 && !vec_ends_with_str(&st.token, "\\$")
    } else {
        (ch == '$' && vec_ends_with_str(&st.token, "$$") && !vec_ends_with_str(&st.token, "\\$$"))
            || (ch == ']' && vec_ends_with_str(&st.token, "\\]") && !vec_ends_with_str(
            &st.token,
            "\\\\]",
        ))
    };
    if close {
        let style = if st.mode == LexerState::Comment {
            TokenStyle::Comment
        } else {
            TokenStyle::Math
        };
        flush_token(&mut st.out, &mut st.token, style);
        st.mode = LexerState::Normal;
    }
}

fn step_verbatim(c: &Vec<char>, st: &mut Lexer)
    requires
        old(st).pos < c.len(),
        old(st).mode == LexerState::VerbatimCmdWait || old(st).mode is VerbatimCmd,
    ensures
        final(st).snapshot() == lex_step(c@, old(st).snapshot()),
{
    let ch = c[st.pos];
    match st.mode {
        LexerState::VerbatimCmd(d) => {
            if ch == d {
                flush_token(&mut st.out, &mut st.token, TokenStyle::Math);
                let mut t: Vec<char> = Vec::new();
                t.push(ch);
                emit(&mut st.out, string_of(&t), TokenStyle::Bracket);
                st.mode = LexerState::Normal;
                st.ok = st.ok && '\u{80}' > d;
            } else {
                st.token.push(ch);
            }
            st.pos = st.pos + 1;
        },
        _ => {
            st.token.push(ch);
            if ch == '*' {
                flush_token(&mut st.out, &mut st.token, TokenStyle::Command);
            } else if is_whitespace(ch) {
                flush_token(&mut st.out, &mut st.token, TokenStyle::Normal);
            } else {
                st.mode = LexerState::VerbatimCmd(ch);
                flush_token(&mut st.out, &mut st.token, TokenStyle::Bracket);
            }
            st.pos = st.pos + 1;
        },
    }
}

fn step_env(c: &Vec<char>, st: &mut Lexer)
    requires
        old(st).pos < c.len(),
        old(st).mode is EnvNameWait || old(st).mode is EnvName,
    ensures
        final(st).snapshot() == lex_step(c@, old(st).snapshot()),
{
    let ch = c[st.pos];
    match st.mode {
        LexerState::EnvNameWait(b) => {
            if is_whitespace(ch) {
                st.token.push(ch);
                flush_token(&mut st.out, &mut st.token, TokenStyle::Normal);
                st.pos = st.pos + 1;
            } else if ch == '{' {
                st.token.push(ch);
                flush_token(&mut st.out, &mut st.token, TokenStyle::Bracket);
                st.mode = LexerState::EnvName(b);
                st.pos = st.pos + 1;
            } else {
                st.mode = LexerState::Normal;
            }
        },
        LexerState::EnvName(b) => {
            if ch == '}' {
                let verbatim = vec_eq_str(&st.token, "verbatim") || vec_eq_str(
                    &st.token,
                    "lstlisting",
                ) || vec_eq_str(&st.token, "minted");
                flush_token(&mut st.out, &mut st.token, TokenStyle::Command);
                st.token.push(ch);
                flush_token(&mut st.out, &mut st.token, TokenStyle::Bracket);
                if verbatim && b {
                    st.mode = LexerState::VerbatimBlock;
                } else {
                    st.mode = LexerState::Normal;
                }
                st.pos = st.pos + 1;
            } else if ch == '\\' || ch == '{' || ch == '\n' {
                flush_token(&mut st.out, &mut st.token, TokenStyle::Normal);
                st.mode = LexerState::Normal;
            } else {
                st.token.push(ch);
                st.pos = st.pos + 1;
            }
        },
        _ => {},
    }
}

fn step_block(c: &Vec<char>, st: &mut Lexer)
    requires
        old(st).pos < c.len(),
        old(st).mode == LexerState::VerbatimBlock,
    ensures
        final(st).snapshot() == lex_step(c@, old(st).snapshot()),
{
    let ch = c[st.pos];
    st.token.push(ch);
    st.pos = st.pos + 1;
    proof {
        reveal_strlit("\\end{verbatim}");
        reveal_strlit("\\end{lstlisting}");
        reveal_strlit("\\end{minted}");
    }
    let k: usize = if vec_ends_with_str(&st.token, "\\end{verbatim}") {
        0
    } else if vec_ends_with_str(&st.token, "\\end{lstlisting}") {
        1
    } else if vec_ends_with_str(&st.token, "\\end{minted}") {
        2
    } else {
        3
    };
    if k < 3 {
        let elen: usize = if k == 0 {
            14
        } else if k == 1 {
            16
        } else {
            12
        };
        let keep = st.token.len() - elen;
        st.token.truncate(keep);
        flush_token(&mut st.out, &mut st.token, TokenStyle::Math);
        emit_str(&mut st.out, "\\end", TokenStyle::Command);
        emit_str(&mut st.out, "{", TokenStyle::Bracket);
        if k == 0 {
            emit_str(&mut st.out, "verbatim", TokenStyle::Command);
        } else if k == 1 {
            emit_str(&mut st.out, "lstlisting", TokenStyle::Command);
        } else {
            emit_str(&mut st.out, "minted", TokenStyle::Command);
        }
        emit_str(&mut st.out, "}", TokenStyle::Bracket);
        st.mode = LexerState::Normal;
    }
}

fn step(c: &Vec<char>, st: &mut Lexer)
    requires
        old(st).pos < c.len(),
    ensures
        final(st).snapshot() == lex_step(c@, old(st).snapshot()),
{
    match st.mode {
        LexerState::Normal => step_normal(c, st),
        LexerState::Backslash | LexerState::Command => step_command(c, st),
        LexerState::Comment | LexerState::InlineMath | LexerState::DisplayMath => step_math(c, st),
        LexerState::VerbatimCmdWait | LexerState::VerbatimCmd(_) => step_verbatim(c, st),
        LexerState::EnvNameWait(_) | LexerState::EnvName(_) => step_env(c, st),
        LexerState::VerbatimBlock => step_block(c, st),
    }
}

fn run_lexer(text: &str) -> (st: Lexer)
    ensures
        st.snapshot() == lex_run(text@, lex_start()),
{
    let c = chars_of(text);
    let mut st = Lexer {
        mode: LexerState::Normal,
        token: Vec::new(),
        out: Vec::new(),
        pos: 0,
        ok: true,
    };
    assert(spans_view(st.out@) == Seq::<(Seq<char>, TokenStyle)>::empty());
    assert(st.snapshot() == lex_start());
    while st.pos < c.len()
        invariant
            st.pos <= c.len(),
            lex_run(c@, st.snapshot()) == lex_run(c@, lex_start()),
        decreases lex_measure(c@, st.snapshot()),
    {
        proof {
            lemma_lex_step_progress(c@, st.snapshot());
        }
        step(&c, &mut st);
    }
    let style = match st.mode {
        LexerState::Normal | LexerState::EnvNameWait(_) => TokenStyle::Normal,
        LexerState::Backslash | LexerState::Command | LexerState::EnvName(_) => TokenStyle::Command,
        LexerState::Comment => TokenStyle::Comment,
        _ => TokenStyle::Math,
    };
    flush_token(&mut st.out, &mut st.token, style);
    st
}

/// Whether [`highlight_latex`] is defined on `text` (see [`highlight_defined`]).
pub fn highlight_latex_defined(text: &str) -> (b: bool)
    ensures
        b == highlight_defined(text@),
{
    let st = run_lexer(text);
    st.ok
}

/// Splits LaTeX source into styled spans: commands, comments, brackets, math and
/// verbatim content, and plain text.
pub fn highlight_latex(text: &str) -> (spans: Vec<HighlightSpan>)
    requires
        highlight_defined(text@),
    ensures
        spans_view(spans@) == spec_highlight(text@),
{
    let st = run_lexer(text);
    st.out
}

/// The text covered by a list of spans, in order.
pub open spec fn concat_spans(s: Seq<(Seq<char>, TokenStyle)>) -> Seq<char>
    decreases s.len(),
{
    if s.len() == 0 {
        Seq::empty()
    } else {
        concat_spans(s.drop_last()) + s.last().0
    }
}

/// Every span holds at least one character.
pub open spec fn spans_nonempty(s: Seq<(Seq<char>, TokenStyle)>) -> bool {
    forall|i: int| 0 <= i < s.len() ==> #[trigger] s[i].0.len() > 0
}

spec fn lex_inv(c: Seq<char>, s: LexSnapshot) -> bool {
    &&& 0 <= s.pos <= c.len()
    &&& concat_spans(s.out) + s.token == c.take(s.pos)
    &&& spans_nonempty(s.out)
}

proof fn lemma_concat_push(s: Seq<(Seq<char>, TokenStyle)>, x: (Seq<char>, TokenStyle))
    ensures
        concat_spans(s.push(x)) == concat_spans(s) + x.0,
{
    assert(s.push(x).drop_last() == s);
}

proof fn lemma_flush(s: Seq<(Seq<char>, TokenStyle)>, tok: Seq<char>, style: TokenStyle)
    requires
        spans_nonempty(s),
    ensures
        concat_spans(flush(s, tok, style)) == concat_spans(s) + tok,
        spans_nonempty(flush(s, tok, style)),
{
    if tok.len() > 0 {
        lemma_concat_push(s, (tok, style));
        assert forall|i: int| 0 <= i < s.len() + 1 implies #[trigger] s.push((tok, style))[i].0.len()
            > 0 by {
            if i < s.len() {
                assert(s.push((tok, style))[i] == s[i]);
            }
        }
    } else {
        assert(concat_spans(s) + tok == concat_spans(s));
    }
}

proof fn lemma_push_span(s: Seq<(Seq<char>, TokenStyle)>, x: (Seq<char>, TokenStyle))
    requires
        spans_nonempty(s),
        x.0.len() > 0,
    ensures
        concat_spans(s.push(x)) == concat_spans(s) + x.0,
        spans_nonempty(s.push(x)),
{
    lemma_concat_push(s, x);
    assert forall|i: int| 0 <= i < s.len() + 1 implies #[trigger] s.push(x)[i].0.len() > 0 by {
        if i < s.len() {
            assert(s.push(x)[i] == s[i]);
        }
    }
}

#[verifier::rlimit(50)]
proof fn lemma_lex_step_inv(c: Seq<char>, s: LexSnapshot)
    requires
        lex_inv(c, s),
        s.pos < c.len(),
    ensures
        lex_inv(c, lex_step(c, s)),
{
    let ch = c[s.pos];
    let n = lex_step(c, s);
    assert(c.take(s.pos + 1) == c.take(s.pos).push(ch));
    lemma_flush(s.out, s.token, TokenStyle::Normal);
    lemma_flush(s.out, s.token, TokenStyle::Command);
    lemma_flush(s.out, s.token, TokenStyle::Math);
    lemma_flush(s.out, s.token.push(ch), TokenStyle::Normal);
    lemma_flush(s.out, s.token.push(ch), TokenStyle::Command);
    lemma_flush(s.out, s.token.push(ch), TokenStyle::Comment);
    lemma_flush(s.out, s.token.push(ch), TokenStyle::Math);
    lemma_flush(s.out, s.token.push(ch), TokenStyle::Bracket);
    match s.mode {
        LexerState::Normal => {
            if ch == '$' && s.pos + 1 < c.len() && c[s.pos + 1] == '$' {
                assert(c.take(s.pos + 2) == c.take(s.pos).push('$').push('$'));
                assert(concat_spans(n.out) + n.token == c.take(s.pos + 2));
            } else if is_bracket_char(ch) && ch != '$' && ch != '%' && ch != '\\' {
                lemma_push_span(flush(s.out, s.token, TokenStyle::Normal), (seq![ch], TokenStyle::Bracket));
                assert(concat_spans(n.out) + n.token == c.take(s.pos + 1));
            } else {
                assert(concat_spans(n.out) + n.token == c.take(s.pos + 1));
            }
        },
        LexerState::VerbatimCmd(d) => {
            if ch == d {
                lemma_push_span(flush(s.out, s.token, TokenStyle::Math), (seq![ch], TokenStyle::Bracket));
            }
            assert(concat_spans(n.out) + n.token == c.take(s.pos + 1));
        },
        LexerState::EnvName(b) => {
            if ch == '}' {
                lemma_push_span(flush(s.out, s.token, TokenStyle::Command), (seq![ch], TokenStyle::Bracket));
                assert(concat_spans(n.out) + n.token == c.take(s.pos + 1));
            } else if ch == '\\' || ch == '{' || ch == '\n' {
                assert(concat_spans(n.out) + n.token == c.take(s.pos));
            } else {
                assert(concat_spans(n.out) + n.token == c.take(s.pos + 1));
            }
        },
        LexerState::VerbatimBlock => {
            let t2 = s.token.push(ch);
            match verbatim_end_of(t2) {
                Some(k) => {
                    let e = verbatim_end_tag(k);
                    reveal_strlit("\\end{verbatim}");
                    reveal_strlit("\\end{lstlisting}");
                    reveal_strlit("\\end{minted}");
                    reveal_strlit("\\end");
                    reveal_strlit("{");
                    reveal_strlit("}");
                    reveal_strlit("verbatim");
                    reveal_strlit("lstlisting");
                    reveal_strlit("minted");
                    assert(e == "\\end"@ + "{"@ + verbatim_env_name(k) + "}"@);
                    let body = t2.take(t2.len() - e.len());
                    assert(t2 == body + e);
                    let o1 = flush(s.out, body, TokenStyle::Math);
                    lemma_flush(s.out, body, TokenStyle::Math);
                    let o2 = o1.push(("\\end"@, TokenStyle::Command));
                    lemma_push_span(o1, ("\\end"@, TokenStyle::Command));
                    let o3 = o2.push(("{"@, TokenStyle::Bracket));
                    lemma_push_span(o2, ("{"@, TokenStyle::Bracket));
                    let o4 = o3.push((verbatim_env_name(k), TokenStyle::Command));
                    lemma_push_span(o3, (verbatim_env_name(k), TokenStyle::Command));
                    lemma_push_span(o4, ("}"@, TokenStyle::Bracket));
                    assert(concat_spans(n.out) + n.token == c.take(s.pos + 1));
                },
                None => {
                    assert(concat_spans(n.out) + n.token == c.take(s.pos + 1));
                },
            }
        },
        _ => {
            assert(concat_spans(n.out) + n.token == c.take(n.pos));
        },
    }
}

proof fn lemma_lex_run_inv(c: Seq<char>, s: LexSnapshot)
    requires
        lex_inv(c, s),
    ensures
        concat_spans(lex_run(c, s).out) == c,
        spans_nonempty(lex_run(c, s).out),
    decreases lex_measure(c, s),
{
    if s.pos >= c.len() {
        lemma_flush(s.out, s.token, final_style(s.mode));
        assert(c.take(s.pos) == c);
    } else {
        lemma_lex_step_progress(c, s);
        lemma_lex_step_inv(c, s);
        lemma_lex_run_inv(c, lex_step(c, s));
    }
}

/// Highlighting never alters the text: the spans, read in order, spell out exactly the
/// input, and none of them is empty.
pub proof fn lemma_highlight_covers_text(t: Seq<char>)
    ensures
        concat_spans(spec_highlight(t)) == t,
        spans_nonempty(spec_highlight(t)),
{
    assert(concat_spans(Seq::<(Seq<char>, TokenStyle)>::empty()) + Seq::<char>::empty() == t.take(0));
    lemma_lex_run_inv(t, lex_start());
}

/// A character the lexer keeps in plain text: it opens no comment, command, formula or
/// bracket span.
pub open spec fn is_plain_char(ch: char) -> bool {
    ch != '%' && ch != '\\' && ch != '$' && !is_bracket_char(ch)
}

/// In plain text, plain characters gather into the pending token.
proof fn lemma_plain_run(c: Seq<char>, s: LexSnapshot, e: int)
    requires
        s.mode == LexerState::Normal,
        0 <= s.pos <= e <= c.len(),
        forall|j: int| s.pos <= j < e ==> is_plain_char(#[trigger] c[j]),
    ensures
        lex_run(c, s) == lex_run(
            c,
            LexSnapshot { token: s.token + c.subrange(s.pos, e), pos: e, ..s },
        ),
    decreases e - s.pos,
{
    if s.pos == e {
        assert(s.token + c.subrange(s.pos, e) =~= s.token);
        assert(LexSnapshot { token: s.token + c.subrange(s.pos, e), pos: e, ..s } == s);
    } else {
        assert(is_plain_char(c[s.pos]));
        let n = lex_step(c, s);
        assert(n == LexSnapshot { token: s.token.push(c[s.pos]), pos: s.pos + 1, ..s });
        lemma_plain_run(c, n, e);
        assert(n.token + c.subrange(n.pos, e) =~= s.token + c.subrange(s.pos, e));
    }
}

/// Inside `$..$`, characters up to the closing unescaped `$` gather into the formula,
/// which is then painted as math.
proof fn lemma_inline_math_run(c: Seq<char>, s: LexSnapshot, p: int, q: int)
    requires
        s.mode == LexerState::InlineMath,
        0 <= p < s.pos <= q < c.len(),
        s.token == c.subrange(p, s.pos),
        c[p] == '$',
        c[q] == '$',
        c[q - 1] != '\\',
        p + 2 <= q,
        forall|j: int| s.pos <= j < q && #[trigger] c[j] == '$' ==> j >= p + 2 && c[j - 1] == '\\',
    ensures
        lex_run(c, s) == lex_run(
            c,
            LexSnapshot {
                mode: LexerState::Normal,
                token: Seq::empty(),
                out: s.out.push((c.subrange(p, q + 1), TokenStyle::Math)),
                pos: q + 1,
                ..s
            },
        ),
    decreases q - s.pos,
{
    reveal_strlit("\\$");
    let j = s.pos;
    let t2 = s.token.push(c[j]);
    assert(t2 =~= c.subrange(p, j + 1));
    if j == q {
        assert(t2.len() >= 2);
        assert(t2[t2.len() - 2] == c[q - 1]);
        if "\\$"@.is_suffix_of(t2) {
            assert(t2.subrange(t2.len() - 2, t2.len() as int)[0] == t2[t2.len() - 2]);
        }
    } else {
        if c[j] == '$' {
            assert(t2.subrange(t2.len() - 2, t2.len() as int) =~= "\\$"@);
        }
        let n = lex_step(c, s);
        assert(n == LexSnapshot { token: t2, pos: j + 1, ..s });
        lemma_inline_math_run(c, n, p, q);
    }
}

/// A formula `$..$` is painted as math. From any point where the lexer reads plain text, a
/// `$` not followed by another `$` opens an inline formula; the formula reaches the next
/// `$` not preceded by a backslash and becomes a single span in the math style, after the
/// pending plain text is emitted, and plain text resumes after it.
pub proof fn lemma_inline_math_span(c: Seq<char>, s: LexSnapshot, q: int)
    requires
        s.mode == LexerState::Normal,
        0 <= s.pos,
        s.pos + 2 <= q < c.len(),
        c[s.pos] == '$',
        c[s.pos + 1] != '$',
        c[q] == '$',
        c[q - 1] != '\\',
        forall|j: int| s.pos < j < q && #[trigger] c[j] == '$' ==> c[j - 1] == '\\',
    ensures
        lex_run(c, s) == lex_run(
            c,
            LexSnapshot {
                mode: LexerState::Normal,
                token: Seq::empty(),
                out: flush(s.out, s.token, TokenStyle::Normal).push(
                    (c.subrange(s.pos, q + 1), TokenStyle::Math),
                ),
                pos: q + 1,
                ..s
            },
        ),
{
    let p = s.pos;
    let n = lex_step(c, s);
    assert(n == LexSnapshot {
        mode: LexerState::InlineMath,
        token: seq!['$'],
        out: flush(s.out, s.token, TokenStyle::Normal),
        pos: p + 1,
        ..s
    });
    assert(seq!['$'] =~= c.subrange(p, p + 1));
    lemma_inline_math_run(c, n, p, q);
}

/// Plain text around one inline formula: `a $x$ b` is painted as the plain text `a`, the
/// formula `$x$` in the math style, and the plain text `b` (empty plain parts give no span).
pub proof fn lemma_inline_formula_between_plain_text(a: Seq<char>, x: Seq<char>, b: Seq<char>)
    requires
        forall|k: int| 0 <= k < a.len() ==> is_plain_char(#[trigger] a[k]),
        forall|k: int| 0 <= k < b.len() ==> is_plain_char(#[trigger] b[k]),
        x.len() > 0,
        !x.contains('$'),
        x.last() != '\\',
    ensures
        spec_highlight(a + "$"@ + x + "$"@ + b) == flush(
            flush(Seq::empty(), a, TokenStyle::Normal).push(("$"@ + x + "$"@, TokenStyle::Math)),
            b,
            TokenStyle::Normal,
        ),
{
    reveal_strlit("$");
    let t = a + "$"@ + x + "$"@ + b;
    let p = a.len() as int;
    let q = p + x.len() + 1;
    let s0 = lex_start();
    assert forall|j: int| 0 <= j < p implies is_plain_char(#[trigger] t[j]) by {
        assert(t[j] == a[j]);
    }
    lemma_plain_run(t, s0, p);
    assert(t.subrange(0, p) =~= a);
    let s1 = LexSnapshot { token: Seq::<char>::empty() + a, pos: p, ..s0 };
    assert(Seq::<char>::empty() + a =~= a);
    assert(t[p] == '$');
    assert(t[p + 1] == x[0]);
    assert(t[q] == '$');
    assert(t[q - 1] == x.last());
    assert forall|j: int| p < j < q && #[trigger] t[j] == '$' implies t[j - 1] == '\\' by {
        assert(t[j] == x[j - p - 1]);
    }
    lemma_inline_math_span(t, s1, q);
    assert(t.subrange(p, q + 1) =~= "$"@ + x + "$"@);
    let s2 = LexSnapshot {
        mode: LexerState::Normal,
        token: Seq::empty(),
        out: flush(s1.out, s1.token, TokenStyle::Normal).push((t.subrange(p, q + 1), TokenStyle::Math)),
        pos: q + 1,
        ..s1
    };
    assert forall|j: int| q + 1 <= j < t.len() implies is_plain_char(#[trigger] t[j]) by {
        assert(t[j] == b[j - q - 1]);
    }
    lemma_plain_run(t, s2, t.len() as int);
    assert(t.subrange(q + 1, t.len() as int) =~= b);
    assert(Seq::<char>::empty() + b =~= b);
}

/// Inside a `%` comment, characters up to the end of the line gather into the comment,
/// which is painted with the newline that ends it.
proof fn lemma_comment_run(c: Seq<char>, s: LexSnapshot, p: int, q: int)
    requires
        s.mode == LexerState::Comment,
        0 <= p < s.pos <= q < c.len(),
        s.token == c.subrange(p, s.pos),
        c[q] == '\n',
        forall|j: int| s.pos <= j < q ==> #[trigger] c[j] != '\n',
    ensures
        lex_run(c, s) == lex_run(
            c,
            LexSnapshot {
                mode: LexerState::Normal,
                token: Seq::empty(),
                out: s.out.push((c.subrange(p, q + 1), TokenStyle::Comment)),
                pos: q + 1,
                ..s
            },
        ),
    decreases q - s.pos,
{
    let j = s.pos;
    let t2 = s.token.push(c[j]);
    assert(t2 =~= c.subrange(p, j + 1));
    if j < q {
        let n = lex_step(c, s);
        assert(n == LexSnapshot { token: t2, pos: j + 1, ..s });
        lemma_comment_run(c, n, p, q);
    }
}

/// A comment that runs to the end of the text is painted as one comment span.
proof fn lemma_comment_run_to_end(c: Seq<char>, s: LexSnapshot, p: int)
    requires
        s.mode == LexerState::Comment,
        0 <= p < s.pos <= c.len(),
        s.token == c.subrange(p, s.pos),
        forall|j: int| s.pos <= j < c.len() ==> #[trigger] c[j] != '\n',
    ensures
        lex_run(c, s).out == s.out.push((c.subrange(p, c.len() as int), TokenStyle::Comment)),
    decreases c.len() - s.pos,
{
    let j = s.pos;
    if j < c.len() {
        let t2 = s.token.push(c[j]);
        assert(t2 =~= c.subrange(p, j + 1));
        let n = lex_step(c, s);
        assert(n == LexSnapshot { token: t2, pos: j + 1, ..s });
        lemma_comment_run_to_end(c, n, p);
    }
}

/// A formula whose closing `$` never comes is painted as math up to the end of the text.
proof fn lemma_inline_math_run_to_end(c: Seq<char>, s: LexSnapshot, p: int)
    requires
        s.mode == LexerState::InlineMath,
        0 <= p < s.pos <= c.len(),
        s.token == c.subrange(p, s.pos),
        forall|j: int| s.pos <= j < c.len() ==> #[trigger] c[j] != '$',
    ensures
        lex_run(c, s).out == s.out.push((c.subrange(p, c.len() as int), TokenStyle::Math)),
    decreases c.len() - s.pos,
{
    let j = s.pos;
    if j < c.len() {
        let t2 = s.token.push(c[j]);
        assert(t2 =~= c.subrange(p, j + 1));
        let n = lex_step(c, s);
        assert(n == LexSnapshot { token: t2, pos: j + 1, ..s });
        lemma_inline_math_run_to_end(c, n, p);
    }
}

/// Display math (`$$..$$` or `\[..\]`) closes at position `j`: a `$$` or `\]` not preceded
/// by a backslash ends there.
pub open spec fn display_close_at(c: Seq<char>, j: int) -> bool {
    &&& (c[j] == '$' && c[j - 1] == '$') || (c[j] == ']' && c[j - 1] == '\\')
    &&& c[j - 2] != '\\'
}

/// Inside display math, characters up to its closing mark gather into the formula, which
/// is then painted as math.
proof fn lemma_display_math_run(c: Seq<char>, s: LexSnapshot, p: int, q: int)
    requires
        s.mode == LexerState::DisplayMath,
        0 <= p,
        p + 2 <= s.pos <= q < c.len(),
        s.token == c.subrange(p, s.pos),
        display_close_at(c, q),
        forall|j: int| s.pos <= j < q ==> !#[trigger] display_close_at(c, j),
    ensures
        lex_run(c, s) == lex_run(
            c,
            LexSnapshot {
                mode: LexerState::Normal,
                token: Seq::empty(),
                out: s.out.push((c.subrange(p, q + 1), TokenStyle::Math)),
                pos: q + 1,
                ..s
            },
        ),
    decreases q - s.pos,
{
    reveal_strlit("$$");
    reveal_strlit("\\$$");
    reveal_strlit("\\]");
    reveal_strlit("\\\\]");
    let j = s.pos;
    let ch = c[j];
    let t2 = s.token.push(ch);
    assert(t2 =~= c.subrange(p, j + 1));
    let n2 = t2.len() as int;
    assert(t2[n2 - 1] == c[j] && t2[n2 - 2] == c[j - 1] && t2[n2 - 3] == c[j - 2]);
    let two = t2.subrange(n2 - 2, n2);
    let three = t2.subrange(n2 - 3, n2);
    assert(two[0] == c[j - 1] && two[1] == c[j]);
    assert(three[0] == c[j - 2] && three[1] == c[j - 1] && three[2] == c[j]);
    let dollar_end = ch == '$' && "$$"@.is_suffix_of(t2) && !"\\$$"@.is_suffix_of(t2);
    let bracket_end = ch == ']' && "\\]"@.is_suffix_of(t2) && !"\\\\]"@.is_suffix_of(t2);
    if c[j] == '$' && c[j - 1] == '$' {
        assert(two =~= "$$"@);
    }
    if c[j] == ']' && c[j - 1] == '\\' {
        assert(two =~= "\\]"@);
    }
    if c[j] == '$' && c[j - 1] == '$' && c[j - 2] == '\\' {
        assert(three =~= "\\$$"@);
    }
    if c[j] == ']' && c[j - 1] == '\\' && c[j - 2] == '\\' {
        assert(three =~= "\\\\]"@);
    }
    assert((dollar_end || bracket_end) == display_close_at(c, j));
    if j < q {
        let n = lex_step(c, s);
        assert(n == LexSnapshot { token: t2, pos: j + 1, ..s });
        lemma_display_math_run(c, n, p, q);
    }
}

/// Plain text around one comment line: `a %x` followed by a newline and `b` is painted as
/// the plain text `a`, the comment `%x` with its newline, and the plain text `b`.
pub proof fn lemma_comment_line_between_plain_text(a: Seq<char>, x: Seq<char>, b: Seq<char>)
    requires
        forall|k: int| 0 <= k < a.len() ==> is_plain_char(#[trigger] a[k]),
        forall|k: int| 0 <= k < b.len() ==> is_plain_char(#[trigger] b[k]),
        !x.contains('\n'),
    ensures
        spec_highlight(a + "%"@ + x + "\n"@ + b) == flush(
            flush(Seq::empty(), a, TokenStyle::Normal).push(("%"@ + x + "\n"@, TokenStyle::Comment)),
            b,
            TokenStyle::Normal,
        ),
{
    reveal_strlit("%");
    reveal_strlit("\n");
    let t = a + "%"@ + x + "\n"@ + b;
    let p = a.len() as int;
    let q = p + x.len() + 1;
    let s0 = lex_start();
    assert forall|j: int| 0 <= j < p implies is_plain_char(#[trigger] t[j]) by {
        assert(t[j] == a[j]);
    }
    lemma_plain_run(t, s0, p);
    assert(t.subrange(0, p) =~= a);
    assert(Seq::<char>::empty() + a =~= a);
    let s1 = LexSnapshot { token: a, pos: p, ..s0 };
    assert(t[p] == '%');
    let n = lex_step(t, s1);
    assert(n == LexSnapshot {
        mode: LexerState::Comment,
        token: seq!['%'],
        out: flush(s1.out, a, TokenStyle::Normal),
        pos: p + 1,
        ..s1
    });
    assert(seq!['%'] =~= t.subrange(p, p + 1));
    assert(t[q] == '\n');
    assert forall|j: int| p + 1 <= j < q implies #[trigger] t[j] != '\n' by {
        assert(t[j] == x[j - p - 1]);
    }
    lemma_comment_run(t, n, p, q);
    assert(t.subrange(p, q + 1) =~= "%"@ + x + "\n"@);
    let s2 = LexSnapshot {
        mode: LexerState::Normal,
        token: Seq::empty(),
        out: flush(s1.out, a, TokenStyle::Normal).push((t.subrange(p, q + 1), TokenStyle::Comment)),
        pos: q + 1,
        ..s1
    };
    assert forall|j: int| q + 1 <= j < t.len() implies is_plain_char(#[trigger] t[j]) by {
        assert(t[j] == b[j - q - 1]);
    }
    lemma_plain_run(t, s2, t.len() as int);
    assert(t.subrange(q + 1, t.len() as int) =~= b);
    assert(Seq::<char>::empty() + b =~= b);
}

/// A comment or a formula left open at the end of the text keeps its own style: after the
/// plain text `a`, `%x` is painted as a comment, and `$y` (with no other `$`) as math.
pub proof fn lemma_open_span_at_end(a: Seq<char>, x: Seq<char>, y: Seq<char>)
    requires
        forall|k: int| 0 <= k < a.len() ==> is_plain_char(#[trigger] a[k]),
        !x.contains('\n'),
        !y.contains('$'),
    ensures
        spec_highlight(a + "%"@ + x) == flush(Seq::empty(), a, TokenStyle::Normal).push(
            ("%"@ + x, TokenStyle::Comment),
        ),
        spec_highlight(a + "$"@ + y) == flush(Seq::empty(), a, TokenStyle::Normal).push(
            ("$"@ + y, TokenStyle::Math),
        ),
{
    reveal_strlit("%");
    reveal_strlit("$");
    let p = a.len() as int;
    let s0 = lex_start();
    assert(Seq::<char>::empty() + a =~= a);
    let t = a + "%"@ + x;
    assert forall|j: int| 0 <= j < p implies is_plain_char(#[trigger] t[j]) by {
        assert(t[j] == a[j]);
    }
    lemma_plain_run(t, s0, p);
    assert(t.subrange(0, p) =~= a);
    let s1 = LexSnapshot { token: a, pos: p, ..s0 };
    assert(t[p] == '%');
    let n = lex_step(t, s1);
    assert(n == LexSnapshot {
        mode: LexerState::Comment,
        token: seq!['%'],
        out: flush(s1.out, a, TokenStyle::Normal),
        pos: p + 1,
        ..s1
    });
    assert(seq!['%'] =~= t.subrange(p, p + 1));
    assert forall|j: int| p + 1 <= j < t.len() implies #[trigger] t[j] != '\n' by {
        assert(t[j] == x[j - p - 1]);
    }
    lemma_comment_run_to_end(t, n, p);
    assert(t.subrange(p, t.len() as int) =~= "%"@ + x);
    let u = a + "$"@ + y;
    assert forall|j: int| 0 <= j < p implies is_plain_char(#[trigger] u[j]) by {
        assert(u[j] == a[j]);
    }
    lemma_plain_run(u, s0, p);
    assert(u.subrange(0, p) =~= a);
    assert(u[p] == '$');
    if p + 1 < u.len() {
        assert(u[p + 1] == y[0]);
    }
    let m = lex_step(u, s1);
    assert(m == LexSnapshot {
        mode: LexerState::InlineMath,
        token: seq!['$'],
        out: flush(s1.out, a, TokenStyle::Normal),
        pos: p + 1,
        ..s1
    });
    assert(seq!['$'] =~= u.subrange(p, p + 1));
    assert forall|j: int| p + 1 <= j < u.len() implies #[trigger] u[j] != '$' by {
        assert(u[j] == y[j - p - 1]);
    }
    lemma_inline_math_run_to_end(u, m, p);
    assert(u.subrange(p, u.len() as int) =~= "$"@ + y);
}

/// Display formulas are painted as math: `a $$x$$ b` and `a \[x\] b` give the plain text
/// `a`, the whole formula with its delimiters in the math style, and the plain text `b`,
/// for a formula body `x` with no `$` and no `\]` of its own, not ending in a backslash.
pub proof fn lemma_display_formula_between_plain_text(a: Seq<char>, x: Seq<char>, b: Seq<char>)
    requires
        forall|k: int| 0 <= k < a.len() ==> is_plain_char(#[trigger] a[k]),
        forall|k: int| 0 <= k < b.len() ==> is_plain_char(#[trigger] b[k]),
        x.len() > 0,
        x.last() != '\\',
        !x.contains('$'),
        forall|k: int| 0 < k < x.len() && #[trigger] x[k] == ']' ==> x[k - 1] != '\\',
    ensures
        spec_highlight(a + "$$"@ + x + "$$"@ + b) == flush(
            flush(Seq::empty(), a, TokenStyle::Normal).push(("$$"@ + x + "$$"@, TokenStyle::Math)),
            b,
            TokenStyle::Normal,
        ),
        spec_highlight(a + "\\["@ + x + "\\]"@ + b) == flush(
            flush(Seq::empty(), a, TokenStyle::Normal).push(("\\["@ + x + "\\]"@, TokenStyle::Math)),
            b,
            TokenStyle::Normal,
        ),
{
    lemma_display_dollars(a, x, b);
    lemma_display_brackets(a, x, b);
}

proof fn lemma_display_dollars(a: Seq<char>, x: Seq<char>, b: Seq<char>)
    requires
        forall|k: int| 0 <= k < a.len() ==> is_plain_char(#[trigger] a[k]),
        forall|k: int| 0 <= k < b.len() ==> is_plain_char(#[trigger] b[k]),
        x.len() > 0,
        x.last() != '\\',
        !x.contains('$'),
        forall|k: int| 0 < k < x.len() && #[trigger] x[k] == ']' ==> x[k - 1] != '\\',
    ensures
        spec_highlight(a + "$$"@ + x + "$$"@ + b) == flush(
            flush(Seq::empty(), a, TokenStyle::Normal).push(("$$"@ + x + "$$"@, TokenStyle::Math)),
            b,
            TokenStyle::Normal,
        ),
{
    reveal_strlit("$$");
    let t = a + "$$"@ + x + "$$"@ + b;
    let p = a.len() as int;
    let q = p + x.len() + 3;
    let s0 = lex_start();
    assert forall|j: int| 0 <= j < p implies is_plain_char(#[trigger] t[j]) by {
        assert(t[j] == a[j]);
    }
    lemma_plain_run(t, s0, p);
    assert(t.subrange(0, p) =~= a);
    assert(Seq::<char>::empty() + a =~= a);
    let s1 = LexSnapshot { token: a, pos: p, ..s0 };
    assert(t[p] == '$' && t[p + 1] == '$');
    let n = lex_step(t, s1);
    assert(n == LexSnapshot {
        mode: LexerState::DisplayMath,
        token: seq!['$', '$'],
        out: flush(s1.out, a, TokenStyle::Normal),
        pos: p + 2,
        ..s1
    });
    assert(seq!['$', '$'] =~= t.subrange(p, p + 2));
    assert(t[q] == '$' && t[q - 1] == '$' && t[q - 2] == x.last());
    assert forall|j: int| p + 2 <= j < q implies !#[trigger] display_close_at(t, j) by {
        if j < q - 1 {
            assert(t[j] == x[j - p - 2]);
            if j >= p + 3 {
                assert(t[j - 1] == x[j - p - 3]);
            }
        } else {
            assert(t[j - 1] == x.last());
        }
    }
    lemma_display_math_run(t, n, p, q);
    assert(t.subrange(p, q + 1) =~= "$$"@ + x + "$$"@);
    let s2 = LexSnapshot {
        mode: LexerState::Normal,
        token: Seq::empty(),
        out: flush(s1.out, a, TokenStyle::Normal).push((t.subrange(p, q + 1), TokenStyle::Math)),
        pos: q + 1,
        ..s1
    };
    assert forall|j: int| q + 1 <= j < t.len() implies is_plain_char(#[trigger] t[j]) by {
        assert(t[j] == b[j - q - 1]);
    }
    lemma_plain_run(t, s2, t.len() as int);
    assert(t.subrange(q + 1, t.len() as int) =~= b);
    assert(Seq::<char>::empty() + b =~= b);
}

proof fn lemma_display_brackets(a: Seq<char>, x: Seq<char>, b: Seq<char>)
    requires
        forall|k: int| 0 <= k < a.len() ==> is_plain_char(#[trigger] a[k]),
        forall|k: int| 0 <= k < b.len() ==> is_plain_char(#[trigger] b[k]),
        x.len() > 0,
        x.last() != '\\',
        !x.contains('$'),
        forall|k: int| 0 < k < x.len() && #[trigger] x[k] == ']' ==> x[k - 1] != '\\',
    ensures
        spec_highlight(a + "\\["@ + x + "\\]"@ + b) == flush(
            flush(Seq::empty(), a, TokenStyle::Normal).push(("\\["@ + x + "\\]"@, TokenStyle::Math)),
            b,
            TokenStyle::Normal,
        ),
{
    reveal_strlit("\\[");
    reveal_strlit("\\]");
    let t = a + "\\["@ + x + "\\]"@ + b;
    let p = a.len() as int;
    let q = p + x.len() + 3;
    let s0 = lex_start();
    assert forall|j: int| 0 <= j < p implies is_plain_char(#[trigger] t[j]) by {
        assert(t[j] == a[j]);
    }
    lemma_plain_run(t, s0, p);
    assert(t.subrange(0, p) =~= a);
    assert(Seq::<char>::empty() + a =~= a);
    let s1 = LexSnapshot { token: a, pos: p, ..s0 };
    assert(t[p] == '\\' && t[p + 1] == '[');
    let n = lex_step(t, s1);
    assert(n == LexSnapshot {
        mode: LexerState::Backslash,
        token: seq!['\\'],
        out: flush(s1.out, a, TokenStyle::Normal),
        pos: p + 1,
        ..s1
    });
    assert(!is_command_letter('['));
    assert(seq!['\\'].push('[') =~= seq!['\\', '[']);
    let n2 = lex_step(t, n);
    assert(lex_run(t, s1) == lex_run(t, n));
    assert(lex_run(t, n) == lex_run(t, n2));
    assert(n2 == LexSnapshot { mode: LexerState::DisplayMath, token: seq!['\\', '['], pos: p + 2, ..n });
    assert(seq!['\\', '['] =~= t.subrange(p, p + 2));
    assert(t[q] == ']' && t[q - 1] == '\\' && t[q - 2] == x.last());
    assert forall|j: int| p + 2 <= j < q implies !#[trigger] display_close_at(t, j) by {
        if j < q - 1 {
            assert(t[j] == x[j - p - 2]);
            if j >= p + 3 {
                assert(t[j - 1] == x[j - p - 3]);
            } else {
                assert(t[j - 1] == '[');
            }
        } else {
            assert(t[j] == '\\');
        }
    }
    lemma_display_math_run(t, n2, p, q);
    assert(t.subrange(p, q + 1) =~= "\\["@ + x + "\\]"@);
    let s2 = LexSnapshot {
        mode: LexerState::Normal,
        token: Seq::empty(),
        out: flush(s1.out, a, TokenStyle::Normal).push((t.subrange(p, q + 1), TokenStyle::Math)),
        pos: q + 1,
        ..s1
    };
    assert forall|j: int| q + 1 <= j < t.len() implies is_plain_char(#[trigger] t[j]) by {
        assert(t[j] == b[j - q - 1]);
    }
    lemma_plain_run(t, s2, t.len() as int);
    assert(t.subrange(q + 1, t.len() as int) =~= b);
    assert(Seq::<char>::empty() + b =~= b);
}

// ==========================================
// TERMINAL LOG HIGHLIGHTING
// ==========================================

/// The colour role of a terminal log line.
#[derive(Clone, Copy, Debug, PartialEq, Eq, Structural)]
pub enum LogStyle {
    Error,
    Success,
    Info,
    Ai,
    Text,
}

/// A log line with the style it is painted in.
pub struct LogLine {
    pub text: String,
    pub style: LogStyle,
}

/// The lines of `t` as `str::lines` yields them: split at `\n`, a `\r` before the `\n`
/// dropped, and no empty line after a final `\n`.
pub open spec fn str_lines(t: Seq<char>) -> Seq<Seq<char>>
    decreases t.len(),
{
    if t.len() == 0 {
        Seq::empty()
    } else {
        match first_index_of(t, '\n') {
            Some(i) => {
                let l = t.take(i);
                let l2 = if l.len() > 0 && l.last() == '\r' {
                    l.drop_last()
                } else {
                    l
                };
                proof {
                    lemma_first_index_of(t, '\n');
                }
                seq![l2] + str_lines(t.skip(i + 1))
            },
            None => seq![t],
        }
    }
}

/// The style of a log line, by the markers it contains.
pub open spec fn log_style_of(line: Seq<char>) -> LogStyle {
    if contains_seq(line, "[ERROR]"@) || contains_seq(line, "[STDERR]"@) || contains_seq(
        line,
        "\u{274c}"@,
    ) {
        LogStyle::Error
    } else if contains_seq(line, "[SUCCESS]"@) || contains_seq(line, "[FILE]"@) || contains_seq(
        line,
        "\u{2705}"@,
    ) {
        LogStyle::Success
    } else if contains_seq(line, "[BUILD]"@) || contains_seq(line, "[SYSTEM]"@) {
        LogStyle::Info
    } else if contains_seq(line, "[AI]"@) {
        LogStyle::Ai
    } else {
        LogStyle::Text
    }
}

fn contains_lit(v: &Vec<char>, lit: &str) -> (b: bool)
    ensures
        b == contains_seq(v@, lit@),
{
    let p = chars_of(lit);
    find_seq_from(v, &p, 0).is_some()
}

/// The style a terminal log line is painted in.
pub fn classify_log_line(line: &str) -> (st: LogStyle)
    ensures
        st == log_style_of(line@),
        contains_seq(line@, "[ERROR]"@) || contains_seq(line@, "[STDERR]"@) || contains_seq(
            line@,
            "\u{274c}"@,
        ) ==> st == LogStyle::Error,
        !contains_seq(line@, "[ERROR]"@) && !contains_seq(line@, "[STDERR]"@) && !contains_seq(
            line@,
            "\u{274c}"@,
        ) && (contains_seq(line@, "[SUCCESS]"@) || contains_seq(line@, "[FILE]"@) || contains_seq(
            line@,
            "\u{2705}"@,
        )) ==> st == LogStyle::Success,
{
    proof {
        lemma_log_markers(line@);
    }
    let v = chars_of(line);
    if contains_lit(&v, "[ERROR]") || contains_lit(&v, "[STDERR]") || contains_lit(&v, "\u{274c}") {
        LogStyle::Error
    } else if contains_lit(&v, "[SUCCESS]") || contains_lit(&v, "[FILE]") || contains_lit(
        &v,
        "\u{2705}",
    ) {
        LogStyle::Success
    } else if contains_lit(&v, "[BUILD]") || contains_lit(&v, "[SYSTEM]") {
        LogStyle::Info
    } else if contains_lit(&v, "[AI]") {
        LogStyle::Ai
    } else {
        LogStyle::Text
    }
}

/// A line with its style.
pub open spec fn styled_line(l: Seq<char>) -> (Seq<char>, LogStyle) {
    (l, log_style_of(l))
}

/// Model of a list of styled log lines.
pub open spec fn log_lines_view(v: Seq<LogLine>) -> Seq<(Seq<char>, LogStyle)> {
    v.map_values(|l: LogLine| (l.text@, l.style))
}

/// The lines of `t`, each with the style it is painted in.
pub open spec fn spec_log_lines(t: Seq<char>) -> Seq<(Seq<char>, LogStyle)> {
    str_lines(t).map_values(|l: Seq<char>| styled_line(l))
}

proof fn lemma_styled_cons(l: Seq<char>, rest: Seq<Seq<char>>)
    ensures
        (seq![l] + rest).map_values(|l: Seq<char>| styled_line(l)) == seq![styled_line(l)]
            + rest.map_values(|l: Seq<char>| styled_line(l)),
{
    assert((seq![l] + rest).map_values(|l: Seq<char>| styled_line(l)) =~= seq![styled_line(l)]
        + rest.map_values(|l: Seq<char>| styled_line(l)));
}

/// The lines of the terminal log, each with the style it is painted in (when painted, every
/// line is followed by a newline in the same style).
pub fn highlight_logs(text: &str) -> (lines: Vec<LogLine>)
    ensures
        log_lines_view(lines@) == spec_log_lines(text@),
{
    let v = chars_of(text);
    let n = v.len();
    let mut out: Vec<LogLine> = Vec::new();
    let mut start: usize = 0;
    assert(v@.skip(0) == v@);
    while start < n
        invariant
            start <= n == v.len(),
            log_lines_view(out@) + spec_log_lines(v@.skip(start as int)) == spec_log_lines(v@),
        decreases n - start,
    {
        let ghost rest = v@.skip(start as int);
        proof {
            assert(rest == v@.subrange(start as int, n as int));
        }
        let (end, next) = match find_char(&v, start, n, '\n') {
            Some(i) => (i, i + 1),
            None => (n, n),
        };
        let stop = if next > end && end > start && v[end - 1] == '\r' {
            end - 1
        } else {
            end
        };
        let line = string_of_range(&v, start, stop);
        let style = classify_log_line(line.as_str());
        proof {
            let l = v@.subrange(start as int, stop as int);
            if next > end {
                assert(rest.take(end - start) == v@.subrange(start as int, end as int));
                assert(rest.skip(end - start + 1) == v@.skip(next as int));
                if end > start && v@[end - 1] == '\r' {
                    assert(v@.subrange(start as int, end as int).drop_last() == l);
                }
                assert(str_lines(rest) == seq![l] + str_lines(v@.skip(next as int)));
                lemma_styled_cons(l, str_lines(v@.skip(next as int)));
            } else {
                assert(str_lines(rest) == seq![rest]);
                assert(rest == l);
                assert(v@.skip(next as int) == Seq::<char>::empty());
                assert(str_lines(v@.skip(next as int)) == Seq::<Seq<char>>::empty());
                lemma_styled_cons(l, Seq::<Seq<char>>::empty());
            }
        }
        let ll = LogLine { text: line, style };
        proof {
            assert(log_lines_view(out@.push(ll)) =~= log_lines_view(out@).push((ll.text@, ll.style)));
        }
        out.push(ll);
        start = next;
    }
    proof {
        assert(v@.skip(n as int) == Seq::<char>::empty());
        assert(spec_log_lines(v@.skip(n as int)) =~= Seq::<(Seq<char>, LogStyle)>::empty());
        assert(log_lines_view(out@) + Seq::<(Seq<char>, LogStyle)>::empty() == log_lines_view(out@));
    }
    out
}

/// How terminal lines are coloured, marker by marker: a line with an error marker
/// (`[ERROR]`, `[STDERR]` or a cross mark) is an error; otherwise a line with `[SUCCESS]`,
/// `[FILE]` or a check mark is a success; otherwise `[BUILD]` or `[SYSTEM]` is
/// information; otherwise `[AI]` is the assistant's; any other line is plain text.
pub proof fn lemma_log_markers(line: Seq<char>)
    ensures
        contains_seq(line, "[ERROR]"@) || contains_seq(line, "[STDERR]"@) || contains_seq(line, "\u{274c}"@)
            ==> log_style_of(line) == LogStyle::Error,
        !contains_seq(line, "[ERROR]"@) && !contains_seq(line, "[STDERR]"@) && !contains_seq(line, "\u{274c}"@)
            && (contains_seq(line, "[SUCCESS]"@) || contains_seq(line, "[FILE]"@) || contains_seq(
            line,
            "\u{2705}"@,
        )) ==> log_style_of(line) == LogStyle::Success,
        !contains_seq(line, "[ERROR]"@) && !contains_seq(line, "[STDERR]"@) && !contains_seq(line, "\u{274c}"@)
            && !contains_seq(line, "[SUCCESS]"@) && !contains_seq(line, "[FILE]"@) && !contains_seq(
            line,
            "\u{2705}"@,
        ) && (contains_seq(line, "[BUILD]"@) || contains_seq(line, "[SYSTEM]"@)) ==> log_style_of(line)
            == LogStyle::Info,
        !contains_seq(line, "[ERROR]"@) && !contains_seq(line, "[STDERR]"@) && !contains_seq(line, "\u{274c}"@)
            && !contains_seq(line, "[SUCCESS]"@) && !contains_seq(line, "[FILE]"@) && !contains_seq(
            line,
            "\u{2705}"@,
        ) && !contains_seq(line, "[BUILD]"@) && !contains_seq(line, "[SYSTEM]"@) && contains_seq(line, "[AI]"@)
            ==> log_style_of(line) == LogStyle::Ai,
        !contains_seq(line, "[ERROR]"@) && !contains_seq(line, "[STDERR]"@) && !contains_seq(line, "\u{274c}"@)
            && !contains_seq(line, "[SUCCESS]"@) && !contains_seq(line, "[FILE]"@) && !contains_seq(
            line,
            "\u{2705}"@,
        ) && !contains_seq(line, "[BUILD]"@) && !contains_seq(line, "[SYSTEM]"@) && !contains_seq(line, "[AI]"@)
            ==> log_style_of(line) == LogStyle::Text,
{
}

} // verus!
