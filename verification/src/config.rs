//! Settings: colour themes, the assistant endpoint, the build command, autocomplete
//! templates, and the parser for `#RRGGBB` / `#RRGGBBAA` colour codes.
use vstd::prelude::*;
use crate::text::{chars_of, string_of};

verus! {

/// Colours of the window chrome, as colour codes.
#[derive(Clone, Debug)]
pub struct UiTheme {
    pub bg_color: String,
    pub ui_selection_bg: String,
    pub ui_selection_text: String,
    pub editor_selection_bg: String,
    pub cursor: String,
    pub gutter_text: String,
    pub ai_button_bg: String,
    pub ai_button_text: String,
    pub popup_bg: String,
    pub popup_selected_text: String,
}

/// Colours of the LaTeX highlighter.
#[derive(Clone, Debug)]
pub struct SyntaxTheme {
    pub normal: String,
    pub command: String,
    pub comment: String,
    pub bracket: String,
    pub math: String,
}

/// Colours of the search overlays.
#[derive(Clone, Debug)]
pub struct SearchTheme {
    pub match_bg: String,
    pub current_match_bg: String,
}

/// Colours of the terminal log.
#[derive(Clone, Debug)]
pub struct TerminalTheme {
    pub success: String,
    pub error: String,
    pub info: String,
    pub ai: String,
    pub text: String,
}

/// One complete colour theme.
#[derive(Clone, Debug)]
pub struct ThemeConfig {
    pub ui: UiTheme,
    pub syntax: SyntaxTheme,
    pub search: SearchTheme,
    pub terminal: TerminalTheme,
}

/// Where the language model is reached, and how it is instructed.
#[derive(Clone, Debug)]
pub struct AiConfig {
    pub url: String,
    pub model: String,
    pub system_prompt: String,
}

/// The build command and where it runs.
#[derive(Clone, Debug)]
pub struct BuildConfig {
    pub command: String,
    pub working_directory: String,
    pub auto_save_before_build: bool,
}

/// An autocomplete template: typing `trigger` offers `insert`, whose `$CURSOR$` marks
/// where the caret lands.
#[derive(Clone, Debug)]
pub struct AutocompleteEntry {
    pub trigger: String,
    pub insert: String,
}

/// A colour with straight (not premultiplied) alpha.
#[derive(Clone, Copy, Debug, PartialEq, Eq, Structural)]
pub struct Rgba {
    pub r: u8,
    pub g: u8,
    pub b: u8,
    pub a: u8,
}

/// The colour used for a code that cannot be read: magenta.
pub open spec fn fallback_color() -> Rgba {
    Rgba { r: 255, g: 0, b: 255, a: 255 }
}

pub open spec fn is_hex_digit(c: char) -> bool {
    ('0' <= c && c <= '9') || ('a' <= c && c <= 'f') || ('A' <= c && c <= 'F')
}

pub open spec fn hex_digit_value(c: char) -> int {
    if '0' <= c && c <= '9' {
        c as int - '0' as int
    } else if 'a' <= c && c <= 'f' {
        c as int - 'a' as int + 10
    } else {
        c as int - 'A' as int + 10
    }
}

/// The number written by the hexadecimal digits `s`.
pub open spec fn hex_value(s: Seq<char>) -> int
    decreases s.len(),
{
    if s.len() == 0 {
        0
    } else {
        hex_value(s.drop_last()) * 16 + hex_digit_value(s.last())
    }
}

/// `s` is one or more hexadecimal digits and nothing else.
pub open spec fn radix16_digits(s: Seq<char>) -> Option<Seq<char>> {
    if s.len() > 0 && all_hex(s) {
        Some(s)
    } else {
        None
    }
}

pub open spec fn all_hex(d: Seq<char>) -> bool {
    forall|k: int| 0 <= k < d.len() ==> is_hex_digit(#[trigger] d[k])
}

/// `s` without its leading `#` characters.
pub open spec fn strip_hashes(s: Seq<char>) -> Seq<char>
    decreases s.len(),
{
    if s.len() > 0 && s[0] == '#' {
        strip_hashes(s.drop_first())
    } else {
        s
    }
}

/// The colour a code stands for, if it can be read: after any leading `#`, exactly six
/// hexadecimal digits (`RRGGBB`) give an opaque colour and exactly eight (`RRGGBBAA`) a
/// colour with alpha; anything else cannot be read.
pub open spec fn hex_color(code: Seq<char>) -> Option<Rgba> {
    let h = strip_hashes(code);
    match radix16_digits(h) {
        Some(d) => {
            let v = hex_value(d);
            if h.len() == 6 {
                Some(
                    Rgba {
                        r: ((v / 65536) % 256) as u8,
                        g: ((v / 256) % 256) as u8,
                        b: (v % 256) as u8,
                        a: 255,
                    },
                )
            } else if h.len() == 8 {
                Some(
                    Rgba {
                        r: ((v / 16777216) % 256) as u8,
                        g: ((v / 65536) % 256) as u8,
                        b: ((v / 256) % 256) as u8,
                        a: (v % 256) as u8,
                    },
                )
            } else {
                None
            }
        },
        None => None,
    }
}

proof fn lemma_hex_value_bound(s: Seq<char>)
    requires
        forall|k: int| 0 <= k < s.len() ==> is_hex_digit(#[trigger] s[k]),
    ensures
        0 <= hex_value(s),
        s.len() <= 8 ==> hex_value(s) < pow16(s.len()),
    decreases s.len(),
{
    if s.len() > 0 {
        lemma_hex_value_bound(s.drop_last());
        assert(is_hex_digit(s[s.len() - 1]));
        if s.len() <= 8 {
            assert(hex_value(s.drop_last()) * 16 + 15 < pow16(s.len())) by (nonlinear_arith)
                requires
                    hex_value(s.drop_last()) < pow16((s.len() - 1) as nat),
                    pow16(s.len()) == pow16((s.len() - 1) as nat) * 16,
                    0 <= hex_value(s.drop_last()),
            ;
        }
    }
}

pub open spec fn pow16(n: nat) -> int
    decreases n,
{
    if n == 0 {
        1
    } else {
        pow16((n - 1) as nat) * 16
    }
}

/// Reads a colour code (see `hex_color`); `None` when it cannot be read.
pub fn try_parse_hex(hex: &str) -> (r: Option<Rgba>)
    ensures
        r == hex_color(hex@),
{
    let v = chars_of(hex);
    let mut i: usize = 0;
    assert(v@.skip(0) == v@);
    while i < v.len() && v[i] == '#'
        invariant
            i <= v@.len(),
            strip_hashes(v@.skip(i as int)) == strip_hashes(v@),
        decreases v@.len() - i,
    {
        assert(v@.skip(i as int).drop_first() == v@.skip(i + 1));
        i = i + 1;
    }
    let ghost h = v@.skip(i as int);
    assert(strip_hashes(h) == h);
    let len = v.len() - i;
    if len != 6 && len != 8 {
        return None;
    }
    let j = i;
    let ghost d = v@.skip(j as int);
    assert(strip_hashes(hex@) == h);
    let mut val: u32 = 0;
    let mut k = j;
    while k < v.len()
        invariant
            j <= k <= v@.len(),
            d == v@.skip(j as int),
            strip_hashes(hex@) == h,
            d == h,
            v@.len() - j <= 8,
            forall|q: int| j <= q < k ==> is_hex_digit(#[trigger] v@[q]),
            val as int == hex_value(v@.subrange(j as int, k as int)),
        decreases v@.len() - k,
    {
        let c = v[k];
        let dv: u32;
        if '0' <= c && c <= '9' {
            dv = (c as u32) - ('0' as u32);
        } else if 'a' <= c && c <= 'f' {
            dv = (c as u32) - ('a' as u32) + 10;
        } else if 'A' <= c && c <= 'F' {
            dv = (c as u32) - ('A' as u32) + 10;
        } else {
            proof {
                assert(d[k - j] == c);
                assert(!is_hex_digit(d[k - j]));
                assert(strip_hashes(hex@) == h);
                assert(!all_hex(d));
                assert(radix16_digits(h) is None);
            }
            return None;
        }
        proof {
            let sub = v@.subrange(j as int, k as int);
            assert(v@.subrange(j as int, k + 1).drop_last() == sub);
            assert forall|q: int| 0 <= q < sub.len() implies is_hex_digit(#[trigger] sub[q]) by {
                assert(sub[q] == v@[j + q]);
            }
            lemma_hex_value_bound(sub);
            assert(pow16(sub.len()) <= pow16(7)) by {
                lemma_pow16_mono(sub.len(), 7);
            }
            assert(pow16(7) == 268435456) by {
                reveal_with_fuel(pow16, 8);
            }
        }
        val = val * 16 + dv;
        k = k + 1;
    }
    proof {
        assert(v@.subrange(j as int, v@.len() as int) == d);
        assert forall|q: int| 0 <= q < d.len() implies is_hex_digit(#[trigger] d[q]) by {
            assert(d[q] == v@[j + q]);
        }
    }
    if j == v.len() {
        proof {
            assert(d.len() == 0);
        }
        return None;
    }
    if len == 6 {
        Some(Rgba { r: ((val / 65536) % 256) as u8, g: ((val / 256) % 256) as u8, b: (val % 256) as u8, a: 255 })
    } else {
        Some(
            Rgba {
                r: ((val / 16777216) % 256) as u8,
                g: ((val / 65536) % 256) as u8,
                b: ((val / 256) % 256) as u8,
                a: (val % 256) as u8,
            },
        )
    }
}

proof fn lemma_pow16_mono(a: nat, b: nat)
    requires
        a <= b,
    ensures
        pow16(a) <= pow16(b),
        pow16(a) >= 1,
    decreases b,
{
    if a < b {
        lemma_pow16_mono(a, (b - 1) as nat);
    } else if a > 0 {
        lemma_pow16_mono((a - 1) as nat, (a - 1) as nat);
    }
}

/// Reads a colour code, falling back to magenta when it cannot be read.
pub fn parse_hex(hex: &str) -> (r: Rgba)
    ensures
        r == match hex_color(hex@) {
            Some(c) => c,
            None => fallback_color(),
        },
{
    match try_parse_hex(hex) {
        Some(c) => c,
        None => Rgba { r: 255, g: 0, b: 255, a: 255 },
    }
}

fn text(s: &str) -> (r: String)
    ensures
        r@ == s@,
{
    string_of(&chars_of(s))
}

/// `t` is the light theme out of the box, colour by colour.
pub open spec fn is_default_light_theme(t: ThemeConfig) -> bool {
    &&& t.ui.bg_color@ == "#F9F9F8"@
    &&& t.ui.ui_selection_bg@ == "#CCE3FF"@
    &&& t.ui.ui_selection_text@ == "#000000"@
    &&& t.ui.editor_selection_bg@ == "#003E8A88"@
    &&& t.ui.cursor@ == "#000000"@
    &&& t.ui.gutter_text@ == "#8A8A8A"@
    &&& t.ui.ai_button_bg@ == "#28A745"@
    &&& t.ui.ai_button_text@ == "#FFFFFF"@
    &&& t.ui.popup_bg@ == "#F9F9F8"@
    &&& t.ui.popup_selected_text@ == "#005CC5"@
    &&& t.syntax.normal@ == "#24292E"@
    &&& t.syntax.command@ == "#005CC5"@
    &&& t.syntax.comment@ == "#6A737D"@
    &&& t.syntax.bracket@ == "#D73A49"@
    &&& t.syntax.math@ == "#6F42C1"@
    &&& t.search.match_bg@ == "#FFD70064"@
    &&& t.search.current_match_bg@ == "#FF8C00B4"@
    &&& t.terminal.success@ == "#116329"@
    &&& t.terminal.error@ == "#CB2431"@
    &&& t.terminal.info@ == "#0366D6"@
    &&& t.terminal.ai@ == "#8B008B"@
    &&& t.terminal.text@ == "#586069"@
}

/// The light theme: pale background, blue commands, grey comments.
pub fn default_light_theme() -> (t: ThemeConfig)
    ensures
        is_default_light_theme(t),
{
    ThemeConfig {
        ui: UiTheme {
            bg_color: text("#F9F9F8"),
            ui_selection_bg: text("#CCE3FF"),
            ui_selection_text: text("#000000"),
            editor_selection_bg: text("#003E8A88"),
            cursor: text("#000000"),
            gutter_text: text("#8A8A8A"),
            ai_button_bg: text("#28A745"),
            ai_button_text: text("#FFFFFF"),
            popup_bg: text("#F9F9F8"),
            popup_selected_text: text("#005CC5"),
        },
        syntax: SyntaxTheme {
            normal: text("#24292E"),
            command: text("#005CC5"),
            comment: text("#6A737D"),
            bracket: text("#D73A49"),
            math: text("#6F42C1"),
        },
        search: SearchTheme {
            match_bg: text("#FFD70064"),
            current_match_bg: text("#FF8C00B4"),
        },
        terminal: TerminalTheme {
            success: text("#116329"),
            error: text("#CB2431"),
            info: text("#0366D6"),
            ai: text("#8B008B"),
            text: text("#586069"),
        },
    }
}

/// `t` is the dark theme out of the box, colour by colour.
pub open spec fn is_default_dark_theme(t: ThemeConfig) -> bool {
    &&& t.ui.bg_color@ == "#1E1E1E"@
    &&& t.ui.ui_selection_bg@ == "#37373D"@
    &&& t.ui.ui_selection_text@ == "#FFFFFF"@
    &&& t.ui.editor_selection_bg@ == "#264F7878"@
    &&& t.ui.cursor@ == "#FFFFFF"@
    &&& t.ui.gutter_text@ == "#858585"@
    &&& t.ui.ai_button_bg@ == "#2EA043"@
    &&& t.ui.ai_button_text@ == "#FFFFFF"@
    &&& t.ui.popup_bg@ == "#303030"@
    &&& t.ui.popup_selected_text@ == "#56B6C2"@
    &&& t.syntax.normal@ == "#D4D4D4"@
    &&& t.syntax.command@ == "#56B6C2"@
    &&& t.syntax.comment@ == "#98C379"@
    &&& t.syntax.bracket@ == "#E5C07B"@
    &&& t.syntax.math@ == "#C678DD"@
    &&& t.search.match_bg@ == "#FFFF0032"@
    &&& t.search.current_match_bg@ == "#FFA50096"@
    &&& t.terminal.success@ == "#98C379"@
    &&& t.terminal.error@ == "#E06C75"@
    &&& t.terminal.info@ == "#61AFEF"@
    &&& t.terminal.ai@ == "#C678DD"@
    &&& t.terminal.text@ == "#D3D3D3"@
}

/// The dark theme: near-black background, cyan commands, green comments.
pub fn default_dark_theme() -> (t: ThemeConfig)
    ensures
        is_default_dark_theme(t),
{
    ThemeConfig {
        ui: UiTheme {
            bg_color: text("#1E1E1E"),
            ui_selection_bg: text("#37373D"),
            ui_selection_text: text("#FFFFFF"),
            editor_selection_bg: text("#264F7878"),
            cursor: text("#FFFFFF"),
            gutter_text: text("#858585"),
            ai_button_bg: text("#2EA043"),
            ai_button_text: text("#FFFFFF"),
            popup_bg: text("#303030"),
            popup_selected_text: text("#56B6C2"),
        },
        syntax: SyntaxTheme {
            normal: text("#D4D4D4"),
            command: text("#56B6C2"),
            comment: text("#98C379"),
            bracket: text("#E5C07B"),
            math: text("#C678DD"),
        },
        search: SearchTheme {
            match_bg: text("#FFFF0032"),
            current_match_bg: text("#FFA50096"),
        },
        terminal: TerminalTheme {
            success: text("#98C379"),
            error: text("#E06C75"),
            info: text("#61AFEF"),
            ai: text("#C678DD"),
            text: text("#D3D3D3"),
        },
    }
}

/// The system prompt sent with each passage: act as a linguistic editor, list each error
/// as `- category: text`, then `---`, then the corrected text.
pub open spec fn default_system_prompt() -> Seq<char> {
    "Act as an expert linguistic editor. Your sole objective is to identify and categorize every linguistic error within the provided text, including grammar, vocabulary, spelling, punctuation, and syntax.\n\n**Strict Operational Rules:**\n1. **No Markdown Formatting:** Do not use bolding, italics, headers, asterisks, or any other Markdown syntax. The output must be 100% raw, plain text.\n2. **Zero Conversational Output:** Do not include greetings, introductions, transitional phrases, or concluding remarks. Begin the output immediately with the error list.\n3. **Error Categorization:** Categorize each error based on its specific type. Use a single hyphen to start each line, followed by the category, a colon, and the verbatim erroneous segment from the input.\n4. **Structural Delimiter:** Use a line consisting of exactly three hyphens (---) to separate the error list from the corrected text.\n5. **Final Correction:** Following the delimiter, provide the complete, fully corrected version of the input text. Ensure it is grammatically perfect and stylistically natural while retaining the original intent.\n\n**Output Template Structure:**\n- [Category]: [Verbatim Error]\n---\n[Full Corrected Text]"@
}

impl AiConfig {
    /// The assistant settings out of the box: a local Ollama endpoint and a small model.
    pub fn default_settings() -> (c: AiConfig)
        ensures
            c.url@ == "http://localhost:11434/api/generate"@,
            c.model@ == "qwen3:0.6b"@,
            c.system_prompt@ == default_system_prompt(),
    {
        AiConfig {
            url: text("http://localhost:11434/api/generate"),
            model: text("qwen3:0.6b"),
            system_prompt: text("Act as an expert linguistic editor. Your sole objective is to identify and categorize every linguistic error within the provided text, including grammar, vocabulary, spelling, punctuation, and syntax.\n\n**Strict Operational Rules:**\n1. **No Markdown Formatting:** Do not use bolding, italics, headers, asterisks, or any other Markdown syntax. The output must be 100% raw, plain text.\n2. **Zero Conversational Output:** Do not include greetings, introductions, transitional phrases, or concluding remarks. Begin the output immediately with the error list.\n3. **Error Categorization:** Categorize each error based on its specific type. Use a single hyphen to start each line, followed by the category, a colon, and the verbatim erroneous segment from the input.\n4. **Structural Delimiter:** Use a line consisting of exactly three hyphens (---) to separate the error list from the corrected text.\n5. **Final Correction:** Following the delimiter, provide the complete, fully corrected version of the input text. Ensure it is grammatically perfect and stylistically natural while retaining the original intent.\n\n**Output Template Structure:**\n- [Category]: [Verbatim Error]\n---\n[Full Corrected Text]"),
        }
    }
}

impl BuildConfig {
    /// The build settings out of the box: `make`, run in `working_directory`, saving first.
    pub fn default_in(working_directory: String) -> (c: BuildConfig)
        ensures
            c.command@ == "make"@,
            c.working_directory@ == working_directory@,
            c.auto_save_before_build,
    {
        BuildConfig { command: text("make"), working_directory, auto_save_before_build: true }
    }
}

/// A command whose template puts the caret in braces after it.
pub open spec fn braced(cmd: Seq<char>) -> (Seq<char>, Seq<char>) {
    (cmd, cmd + "{$CURSOR$}"@)
}

pub open spec fn templates_view(v: Seq<AutocompleteEntry>) -> Seq<(Seq<char>, Seq<char>)> {
    v.map_values(|e: AutocompleteEntry| (e.trigger@, e.insert@))
}

fn push_pair(v: &mut Vec<AutocompleteEntry>, trigger: &str, insert: &str)
    ensures
        templates_view(final(v)@) == templates_view(old(v)@).push((trigger@, insert@)),
{
    let e = AutocompleteEntry { trigger: string_of(&chars_of(trigger)), insert: string_of(&chars_of(insert)) };
    v.push(e);
    assert(templates_view(v@) == templates_view(old(v)@).push((trigger@, insert@)));
}

fn push_braced(v: &mut Vec<AutocompleteEntry>, cmd: &str)
    ensures
        templates_view(final(v)@) == templates_view(old(v)@).push(braced(cmd@)),
{
    let mut ins = chars_of(cmd);
    crate::text::push_all(&mut ins, &chars_of("{$CURSOR$}"));
    let e = AutocompleteEntry { trigger: string_of(&chars_of(cmd)), insert: string_of(&ins) };
    v.push(e);
    assert(templates_view(v@) == templates_view(old(v)@).push(braced(cmd@)));
}

/// Sectioning, reference and preamble commands, each with a braced argument.
pub open spec fn sectioning_templates() -> Seq<(Seq<char>, Seq<char>)> {
    seq![
        braced("\\documentclass"@),
        braced("\\author"@),
        braced("\\bibliography"@),
        braced("\\caption"@),
        braced("\\chapter"@),
        braced("\\date"@),
        braced("\\label"@),
        braced("\\paragraph"@),
        braced("\\subparagraph"@),
        braced("\\section"@),
        braced("\\subsection"@),
        braced("\\subsubsection"@),
        braced("\\title"@),
        braced("\\usepackage"@),
        braced("\\ref"@),
        braced("\\cref"@),
        braced("\\autoref"@),
        braced("\\nameref"@),
        braced("\\bibliographystyle"@),
        braced("\\bibliography"@),
        braced("\\para"@),
        braced("\\TODO"@),
        braced("\\modified"@)
    ]
}

fn push_sectioning_templates(v: &mut Vec<AutocompleteEntry>)
    ensures
        templates_view(final(v)@) == templates_view(old(v)@) + sectioning_templates(),
{
    let ghost start = templates_view(v@);
    push_braced(v, "\\documentclass");
    push_braced(v, "\\author");
    push_braced(v, "\\bibliography");
    push_braced(v, "\\caption");
    push_braced(v, "\\chapter");
    push_braced(v, "\\date");
    push_braced(v, "\\label");
    push_braced(v, "\\paragraph");
    push_braced(v, "\\subparagraph");
    push_braced(v, "\\section");
    push_braced(v, "\\subsection");
    push_braced(v, "\\subsubsection");
    push_braced(v, "\\title");
    push_braced(v, "\\usepackage");
    push_braced(v, "\\ref");
    push_braced(v, "\\cref");
    push_braced(v, "\\autoref");
    push_braced(v, "\\nameref");
    push_braced(v, "\\bibliographystyle");
    push_braced(v, "\\bibliography");
    push_braced(v, "\\para");
    push_braced(v, "\\TODO");
    push_braced(v, "\\modified");
    assert(templates_view(v@) =~= start + sectioning_templates());
}

/// Size and layout commands, inserted as they are.
pub open spec fn layout_templates() -> Seq<(Seq<char>, Seq<char>)> {
    seq![
        ("\\tiny"@, "\\tiny"@),
        ("\\scriptsize"@, "\\scriptsize"@),
        ("\\footnotesize"@, "\\footnotesize"@),
        ("\\small"@, "\\small"@),
        ("\\normalsize"@, "\\normalsize"@),
        ("\\large"@, "\\large"@),
        ("\\Large"@, "\\Large"@),
        ("\\LARGE"@, "\\LARGE"@),
        ("\\huge"@, "\\huge"@),
        ("\\Huge"@, "\\Huge"@),
        ("\\centering"@, "\\centering"@),
        ("\\clearpage"@, "\\clearpage"@),
        ("\\end"@, "\\end"@),
        ("\\item"@, "\\item"@),
        ("\\maketitle"@, "\\maketitle"@),
        ("\\newline"@, "\\newline"@),
        ("\\noindent"@, "\\noindent"@),
        ("\\tableofcontents"@, "\\tableofcontents"@),
        ("\\sys"@, "\\sys"@),
        ("\\kernel"@, "\\kernel"@)
    ]
}

fn push_layout_templates(v: &mut Vec<AutocompleteEntry>)
    ensures
        templates_view(final(v)@) == templates_view(old(v)@) + layout_templates(),
{
    let ghost start = templates_view(v@);
    push_pair(v, "\\tiny", "\\tiny");
    push_pair(v, "\\scriptsize", "\\scriptsize");
    push_pair(v, "\\footnotesize", "\\footnotesize");
    push_pair(v, "\\small", "\\small");
    push_pair(v, "\\normalsize", "\\normalsize");
    push_pair(v, "\\large", "\\large");
    push_pair(v, "\\Large", "\\Large");
    push_pair(v, "\\LARGE", "\\LARGE");
    push_pair(v, "\\huge", "\\huge");
    push_pair(v, "\\Huge", "\\Huge");
    push_pair(v, "\\centering", "\\centering");
    push_pair(v, "\\clearpage", "\\clearpage");
    push_pair(v, "\\end", "\\end");
    push_pair(v, "\\item", "\\item");
    push_pair(v, "\\maketitle", "\\maketitle");
    push_pair(v, "\\newline", "\\newline");
    push_pair(v, "\\noindent", "\\noindent");
    push_pair(v, "\\tableofcontents", "\\tableofcontents");
    push_pair(v, "\\sys", "\\sys");
    push_pair(v, "\\kernel", "\\kernel");
    assert(templates_view(v@) =~= start + layout_templates());
}

/// Text formatting commands, each with a braced argument.
pub open spec fn formatting_templates() -> Seq<(Seq<char>, Seq<char>)> {
    seq![
        braced("\\texttt"@),
        braced("\\textrm"@),
        braced("\\textsf"@),
        braced("\\textmd"@),
        braced("\\textbf"@),
        braced("\\textup"@),
        braced("\\textit"@),
        braced("\\textsl"@),
        braced("\\textsc"@),
        braced("\\underline"@),
        braced("\\emph"@)
    ]
}

fn push_formatting_templates(v: &mut Vec<AutocompleteEntry>)
    ensures
        templates_view(final(v)@) == templates_view(old(v)@) + formatting_templates(),
{
    let ghost start = templates_view(v@);
    push_braced(v, "\\texttt");
    push_braced(v, "\\textrm");
    push_braced(v, "\\textsf");
    push_braced(v, "\\textmd");
    push_braced(v, "\\textbf");
    push_braced(v, "\\textup");
    push_braced(v, "\\textit");
    push_braced(v, "\\textsl");
    push_braced(v, "\\textsc");
    push_braced(v, "\\underline");
    push_braced(v, "\\emph");
    assert(templates_view(v@) =~= start + formatting_templates());
}

/// Citation commands, each with a braced argument.
pub open spec fn citation_templates() -> Seq<(Seq<char>, Seq<char>)> {
    seq![
        braced("\\cite"@),
        braced("\\nocite"@),
        braced("\\citep"@),
        braced("\\citet"@),
        braced("\\citealt"@),
        braced("\\citealp"@),
        braced("\\citeauthor"@),
        braced("\\citeyear"@),
        braced("\\footcite"@),
        braced("\\textcite"@),
        braced("\\parencite"@)
    ]
}

fn push_citation_templates(v: &mut Vec<AutocompleteEntry>)
    ensures
        templates_view(final(v)@) == templates_view(old(v)@) + citation_templates(),
{
    let ghost start = templates_view(v@);
    push_braced(v, "\\cite");
    push_braced(v, "\\nocite");
    push_braced(v, "\\citep");
    push_braced(v, "\\citet");
    push_braced(v, "\\citealt");
    push_braced(v, "\\citealp");
    push_braced(v, "\\citeauthor");
    push_braced(v, "\\citeyear");
    push_braced(v, "\\footcite");
    push_braced(v, "\\textcite");
    push_braced(v, "\\parencite");
    assert(templates_view(v@) =~= start + citation_templates());
}

/// Greek letters.
pub open spec fn greek_templates() -> Seq<(Seq<char>, Seq<char>)> {
    seq![
        ("\\alpha"@, "\\alpha"@),
        ("\\beta"@, "\\beta"@),
        ("\\gamma"@, "\\gamma"@),
        ("\\delta"@, "\\delta"@),
        ("\\epsilon"@, "\\epsilon"@),
        ("\\zeta"@, "\\zeta"@),
        ("\\eta"@, "\\eta"@),
        ("\\theta"@, "\\theta"@),
        ("\\iota"@, "\\iota"@),
        ("\\kappa"@, "\\kappa"@),
        ("\\lambda"@, "\\lambda"@),
        ("\\mu"@, "\\mu"@),
        ("\\nu"@, "\\nu"@),
        ("\\xi"@, "\\xi"@),
        ("\\pi"@, "\\pi"@),
        ("\\rho"@, "\\rho"@),
        ("\\sigma"@, "\\sigma"@),
        ("\\tau"@, "\\tau"@),
        ("\\upsilon"@, "\\upsilon"@),
        ("\\phi"@, "\\phi"@),
        ("\\chi"@, "\\chi"@),
        ("\\psi"@, "\\psi"@),
        ("\\omega"@, "\\omega"@)
    ]
}

fn push_greek_templates(v: &mut Vec<AutocompleteEntry>)
    ensures
        templates_view(final(v)@) == templates_view(old(v)@) + greek_templates(),
{
    let ghost start = templates_view(v@);
    push_pair(v, "\\alpha", "\\alpha");
    push_pair(v, "\\beta", "\\beta");
    push_pair(v, "\\gamma", "\\gamma");
    push_pair(v, "\\delta", "\\delta");
    push_pair(v, "\\epsilon", "\\epsilon");
    push_pair(v, "\\zeta", "\\zeta");
    push_pair(v, "\\eta", "\\eta");
    push_pair(v, "\\theta", "\\theta");
    push_pair(v, "\\iota", "\\iota");
    push_pair(v, "\\kappa", "\\kappa");
    push_pair(v, "\\lambda", "\\lambda");
    push_pair(v, "\\mu", "\\mu");
    push_pair(v, "\\nu", "\\nu");
    push_pair(v, "\\xi", "\\xi");
    push_pair(v, "\\pi", "\\pi");
    push_pair(v, "\\rho", "\\rho");
    push_pair(v, "\\sigma", "\\sigma");
    push_pair(v, "\\tau", "\\tau");
    push_pair(v, "\\upsilon", "\\upsilon");
    push_pair(v, "\\phi", "\\phi");
    push_pair(v, "\\chi", "\\chi");
    push_pair(v, "\\psi", "\\psi");
    push_pair(v, "\\omega", "\\omega");
    assert(templates_view(v@) =~= start + greek_templates());
}

/// Operators, relations and arrows.
pub open spec fn operator_templates() -> Seq<(Seq<char>, Seq<char>)> {
    seq![
        ("\\Gamma"@, "\\Gamma"@),
        ("\\Delta"@, "\\Delta"@),
        ("\\Theta"@, "\\Theta"@),
        ("\\Lambda"@, "\\Lambda"@),
        ("\\Xi"@, "\\Xi"@),
        ("\\Pi"@, "\\Pi"@),
        ("\\Sigma"@, "\\Sigma"@),
        ("\\Upsilon"@, "\\Upsilon"@),
        ("\\Phi"@, "\\Phi"@),
        ("\\Psi"@, "\\Psi"@),
        ("\\Omega"@, "\\Omega"@)
    ]
}

fn push_operator_templates(v: &mut Vec<AutocompleteEntry>)
    ensures
        templates_view(final(v)@) == templates_view(old(v)@) + operator_templates(),
{
    let ghost start = templates_view(v@);
    push_pair(v, "\\Gamma", "\\Gamma");
    push_pair(v, "\\Delta", "\\Delta");
    push_pair(v, "\\Theta", "\\Theta");
    push_pair(v, "\\Lambda", "\\Lambda");
    push_pair(v, "\\Xi", "\\Xi");
    push_pair(v, "\\Pi", "\\Pi");
    push_pair(v, "\\Sigma", "\\Sigma");
    push_pair(v, "\\Upsilon", "\\Upsilon");
    push_pair(v, "\\Phi", "\\Phi");
    push_pair(v, "\\Psi", "\\Psi");
    push_pair(v, "\\Omega", "\\Omega");
    assert(templates_view(v@) =~= start + operator_templates());
}

/// Calculus, sets and functions.
pub open spec fn analysis_templates() -> Seq<(Seq<char>, Seq<char>)> {
    seq![
        ("\\times"@, "\\times"@),
        ("\\div"@, "\\div"@),
        ("\\pm"@, "\\pm"@),
        ("\\mp"@, "\\mp"@),
        ("\\cdot"@, "\\cdot"@),
        ("\\circ"@, "\\circ"@),
        ("\\infty"@, "\\infty"@),
        ("\\approx"@, "\\approx"@),
        ("\\neq"@, "\\neq"@),
        ("\\leq"@, "\\leq"@),
        ("\\geq"@, "\\geq"@),
        ("\\equiv"@, "\\equiv"@),
        ("\\sim"@, "\\sim"@),
        ("\\simeq"@, "\\simeq"@),
        ("\\rightarrow"@, "\\rightarrow"@),
        ("\\leftarrow"@, "\\leftarrow"@),
        ("\\Rightarrow"@, "\\Rightarrow"@),
        ("\\Leftarrow"@, "\\Leftarrow"@),
        ("\\leftrightarrow"@, "\\leftrightarrow"@),
        ("\\Leftrightarrow"@, "\\Leftrightarrow"@),
        ("\\int"@, "\\int_{$CURSOR$}^{}"@)
    ]
}

fn push_analysis_templates(v: &mut Vec<AutocompleteEntry>)
    ensures
        templates_view(final(v)@) == templates_view(old(v)@) + analysis_templates(),
{
    let ghost start = templates_view(v@);
    push_pair(v, "\\times", "\\times");
    push_pair(v, "\\div", "\\div");
    push_pair(v, "\\pm", "\\pm");
    push_pair(v, "\\mp", "\\mp");
    push_pair(v, "\\cdot", "\\cdot");
    push_pair(v, "\\circ", "\\circ");
    push_pair(v, "\\infty", "\\infty");
    push_pair(v, "\\approx", "\\approx");
    push_pair(v, "\\neq", "\\neq");
    push_pair(v, "\\leq", "\\leq");
    push_pair(v, "\\geq", "\\geq");
    push_pair(v, "\\equiv", "\\equiv");
    push_pair(v, "\\sim", "\\sim");
    push_pair(v, "\\simeq", "\\simeq");
    push_pair(v, "\\rightarrow", "\\rightarrow");
    push_pair(v, "\\leftarrow", "\\leftarrow");
    push_pair(v, "\\Rightarrow", "\\Rightarrow");
    push_pair(v, "\\Leftarrow", "\\Leftarrow");
    push_pair(v, "\\leftrightarrow", "\\leftrightarrow");
    push_pair(v, "\\Leftrightarrow", "\\Leftrightarrow");
    push_pair(v, "\\int", "\\int_{$CURSOR$}^{}");
    assert(templates_view(v@) =~= start + analysis_templates());
}

/// Display maths, matrices and aligned equations.
pub open spec fn matrix_templates() -> Seq<(Seq<char>, Seq<char>)> {
    seq![
        ("\\iint"@, "\\iint"@),
        ("\\oint"@, "\\oint"@),
        ("\\partial"@, "\\partial"@),
        ("\\nabla"@, "\\nabla"@),
        ("\\prod"@, "\\prod_{$CURSOR$}^{}"@),
        ("\\in"@, "\\in"@),
        ("\\notin"@, "\\notin"@),
        ("\\subset"@, "\\subset"@),
        ("\\cup"@, "\\cup"@),
        ("\\cap"@, "\\cap"@),
        ("\\emptyset"@, "\\emptyset"@),
        ("\\sin"@, "\\sin"@),
        ("\\cos"@, "\\cos"@),
        ("\\tan"@, "\\tan"@),
        ("\\ln"@, "\\ln"@),
        ("\\log"@, "\\log"@),
        ("\\exp"@, "\\exp"@),
        ("\\["@, "\\[\n    $CURSOR$\n\\]"@),
        ("\\begin{pmatrix}"@, "\\begin{pmatrix}\n    $CURSOR$\n\\end{pmatrix}"@),
        ("\\begin{bmatrix}"@, "\\begin{bmatrix}\n    $CURSOR$\n\\end{bmatrix}"@),
        ("\\begin{vmatrix}"@, "\\begin{vmatrix}\n    $CURSOR$\n\\end{vmatrix}"@),
        ("\\begin{cases}"@, "\\begin{cases}\n    $CURSOR$ & \\text{if } \\\\\n    & \\text{otherwise}\n\\end{cases}"@),
        ("\\begin{align}"@, "\\begin{align}\n    $CURSOR$\n\\end{align}"@),
        ("\\begin{align*}"@, "\\begin{align*}\n    $CURSOR$\n\\end{align*}"@)
    ]
}

fn push_matrix_templates(v: &mut Vec<AutocompleteEntry>)
    ensures
        templates_view(final(v)@) == templates_view(old(v)@) + matrix_templates(),
{
    let ghost start = templates_view(v@);
    push_pair(v, "\\iint", "\\iint");
    push_pair(v, "\\oint", "\\oint");
    push_pair(v, "\\partial", "\\partial");
    push_pair(v, "\\nabla", "\\nabla");
    push_pair(v, "\\prod", "\\prod_{$CURSOR$}^{}");
    push_pair(v, "\\in", "\\in");
    push_pair(v, "\\notin", "\\notin");
    push_pair(v, "\\subset", "\\subset");
    push_pair(v, "\\cup", "\\cup");
    push_pair(v, "\\cap", "\\cap");
    push_pair(v, "\\emptyset", "\\emptyset");
    push_pair(v, "\\sin", "\\sin");
    push_pair(v, "\\cos", "\\cos");
    push_pair(v, "\\tan", "\\tan");
    push_pair(v, "\\ln", "\\ln");
    push_pair(v, "\\log", "\\log");
    push_pair(v, "\\exp", "\\exp");
    push_pair(v, "\\[", "\\[\n    $CURSOR$\n\\]");
    push_pair(v, "\\begin{pmatrix}", "\\begin{pmatrix}\n    $CURSOR$\n\\end{pmatrix}");
    push_pair(v, "\\begin{bmatrix}", "\\begin{bmatrix}\n    $CURSOR$\n\\end{bmatrix}");
    push_pair(v, "\\begin{vmatrix}", "\\begin{vmatrix}\n    $CURSOR$\n\\end{vmatrix}");
    push_pair(v, "\\begin{cases}", "\\begin{cases}\n    $CURSOR$ & \\text{if } \\\\\n    & \\text{otherwise}\n\\end{cases}");
    push_pair(v, "\\begin{align}", "\\begin{align}\n    $CURSOR$\n\\end{align}");
    push_pair(v, "\\begin{align*}", "\\begin{align*}\n    $CURSOR$\n\\end{align*}");
    assert(templates_view(v@) =~= start + matrix_templates());
}

/// Mathematics: Greek letters, operators, arrows, calculus and sets, functions, matrices.
pub open spec fn math_templates() -> Seq<(Seq<char>, Seq<char>)> {
    greek_templates() + operator_templates() + analysis_templates() + matrix_templates()
}

fn push_math_templates(v: &mut Vec<AutocompleteEntry>)
    ensures
        templates_view(final(v)@) == templates_view(old(v)@) + math_templates(),
{
    let ghost start = templates_view(v@);
    push_greek_templates(v);
    push_operator_templates(v);
    push_analysis_templates(v);
    push_matrix_templates(v);
    assert(start + greek_templates() + operator_templates() + analysis_templates() + matrix_templates()
        =~= start + math_templates());
}

/// Environments with their `\\end`.
pub open spec fn environment_templates() -> Seq<(Seq<char>, Seq<char>)> {
    seq![
        ("\\begin"@, "\\begin{}\n    $CURSOR$\n\\end{}"@),
        ("\\begin{document}"@, "\\begin{document}\n    $CURSOR$\n\\end{document}"@),
        ("\\begin{algorithm}"@, "\\begin{algorithm}\n    $CURSOR$\n\\end{algorithm}"@),
        ("\\begin{itemize}"@, "\\begin{itemize}\n    \\item $CURSOR$\n\\end{itemize}"@),
        ("\\begin{enumerate}"@, "\\begin{enumerate}\n    \\item $CURSOR$\n\\end{enumerate}"@),
        ("\\begin{table}"@, "\\begin{table}[$CURSOR$]\n    \\centering\n    \\begin{tabular}{c|c}\n         &  \\\\\n         & \n    \\end{tabular}\n    \\caption{Caption}\n    \\label{tab:placeholder}\n\\end{table}"@),
        ("\\begin{figure}"@, "\\begin{figure}[htpb]\n    \\centering\n    \\includegraphics[width=0.5\\linewidth]{$CURSOR$}\n    \\caption{Caption}\n    \\label{fig:placeholder}\n\\end{figure}"@)
    ]
}

fn push_environment_templates(v: &mut Vec<AutocompleteEntry>)
    ensures
        templates_view(final(v)@) == templates_view(old(v)@) + environment_templates(),
{
    let ghost start = templates_view(v@);
    push_pair(v, "\\begin", "\\begin{}\n    $CURSOR$\n\\end{}");
    push_pair(v, "\\begin{document}", "\\begin{document}\n    $CURSOR$\n\\end{document}");
    push_pair(v, "\\begin{algorithm}", "\\begin{algorithm}\n    $CURSOR$\n\\end{algorithm}");
    push_pair(v, "\\begin{itemize}", "\\begin{itemize}\n    \\item $CURSOR$\n\\end{itemize}");
    push_pair(v, "\\begin{enumerate}", "\\begin{enumerate}\n    \\item $CURSOR$\n\\end{enumerate}");
    push_pair(v, "\\begin{table}", "\\begin{table}[$CURSOR$]\n    \\centering\n    \\begin{tabular}{c|c}\n         &  \\\\\n         & \n    \\end{tabular}\n    \\caption{Caption}\n    \\label{tab:placeholder}\n\\end{table}");
    push_pair(v, "\\begin{figure}", "\\begin{figure}[htpb]\n    \\centering\n    \\includegraphics[width=0.5\\linewidth]{$CURSOR$}\n    \\caption{Caption}\n    \\label{fig:placeholder}\n\\end{figure}");
    assert(templates_view(v@) =~= start + environment_templates());
}

/// A BibTeX entry.
pub open spec fn bibtex_templates() -> Seq<(Seq<char>, Seq<char>)> {
    seq![
        ("@misc"@, "@misc{$CURSOR$,\n    author = {},\n    key = {},\n    title = {},\n    year = {},\n    note = {}\n}"@)
    ]
}

fn push_bibtex_templates(v: &mut Vec<AutocompleteEntry>)
    ensures
        templates_view(final(v)@) == templates_view(old(v)@) + bibtex_templates(),
{
    let ghost start = templates_view(v@);
    push_pair(v, "@misc", "@misc{$CURSOR$,\n    author = {},\n    key = {},\n    title = {},\n    year = {},\n    note = {}\n}");
    assert(templates_view(v@) =~= start + bibtex_templates());
}

/// The templates offered out of the box, as (trigger, insert), in this order.
pub open spec fn default_templates() -> Seq<(Seq<char>, Seq<char>)> {
    sectioning_templates() + layout_templates() + formatting_templates() + citation_templates() + math_templates() + environment_templates() + bibtex_templates()
}

/// The templates offered out of the box (see `default_templates`).
pub fn default_autocomplete_cmds() -> (v: Vec<AutocompleteEntry>)
    ensures
        templates_view(v@) == default_templates(),
{
    let mut v: Vec<AutocompleteEntry> = Vec::new();
    assert(templates_view(v@) =~= Seq::<(Seq<char>, Seq<char>)>::empty());
    push_sectioning_templates(&mut v);
    push_layout_templates(&mut v);
    push_formatting_templates(&mut v);
    push_citation_templates(&mut v);
    push_math_templates(&mut v);
    push_environment_templates(&mut v);
    push_bibtex_templates(&mut v);
    assert(Seq::<(Seq<char>, Seq<char>)>::empty() + sectioning_templates() + layout_templates() + formatting_templates() + citation_templates() + math_templates() + environment_templates() + bibtex_templates() =~= default_templates());
    v
}

/// The editor settings the library reads (the font size, a floating-point number, is
/// kept by the caller).
pub struct EditorConfig {
    pub autocomplete_cmds: Vec<AutocompleteEntry>,
    pub bib_dir: String,
    pub last_opened_file: Option<String>,
}

/// The interface settings the library reads (panel widths and zoom, floating-point
/// numbers, are kept by the caller).
pub struct UiConfig {
    pub dark_mode: bool,
    pub light_theme: ThemeConfig,
    pub dark_theme: ThemeConfig,
}

/// All settings the library reads.
pub struct CCslipsConfig {
    pub ai: AiConfig,
    pub build: BuildConfig,
    pub editor: EditorConfig,
    pub ui: UiConfig,
}

impl EditorConfig {
    /// The editor settings out of the box: the default templates, bibliographies in
    /// `bib/`, no file to reopen.
    pub fn default_settings() -> (c: EditorConfig)
        ensures
            templates_view(c.autocomplete_cmds@) == default_templates(),
            c.bib_dir@ == "bib/"@,
            c.last_opened_file is None,
    {
        EditorConfig { autocomplete_cmds: default_autocomplete_cmds(), bib_dir: text("bib/"), last_opened_file: None }
    }
}

impl UiConfig {
    /// The interface settings out of the box: dark mode, with the default light and
    /// dark themes.
    pub fn default_settings() -> (c: UiConfig)
        ensures
            c.dark_mode,
            is_default_light_theme(c.light_theme),
            is_default_dark_theme(c.dark_theme),
    {
        UiConfig { dark_mode: true, light_theme: default_light_theme(), dark_theme: default_dark_theme() }
    }
}

impl CCslipsConfig {
    /// The settings out of the box, building in `working_directory` (the directory the
    /// program was started in): see the `default_settings` of each part.
    pub fn default_in(working_directory: String) -> (c: CCslipsConfig)
        ensures
            c.ai.url@ == "http://localhost:11434/api/generate"@,
            c.ai.model@ == "qwen3:0.6b"@,
            c.ai.system_prompt@ == default_system_prompt(),
            c.build.command@ == "make"@,
            c.build.working_directory@ == working_directory@,
            c.build.auto_save_before_build,
            templates_view(c.editor.autocomplete_cmds@) == default_templates(),
            c.editor.bib_dir@ == "bib/"@,
            c.editor.last_opened_file is None,
            c.ui.dark_mode,
            is_default_light_theme(c.ui.light_theme),
            is_default_dark_theme(c.ui.dark_theme),
    {
        CCslipsConfig {
            ai: AiConfig::default_settings(),
            build: BuildConfig::default_in(working_directory),
            editor: EditorConfig::default_settings(),
            ui: UiConfig::default_settings(),
        }
    }
}

} // verus!
