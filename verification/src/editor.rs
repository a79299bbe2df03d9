//! The editor's state: the open buffer, the terminal log, the side panels, the vertical
//! cursor, the autocomplete popup and the search panel, with the rules that change it.
//! Reading and writing files is left to the caller, which hands in what it read and
//! carries out what is returned.
use vstd::prelude::*;
use crate::autocomplete::{detect_context, spec_detect_context, AutocompleteContext, ContextModel};
use crate::caches::{BibCache, LabelCache};
use crate::config::AutocompleteEntry;
use crate::lines::{
    char_index, lemma_line_start_mono, lemma_line_start_total, lemma_split_lines_props, line_col,
    line_col_from, line_start, lines_of, lines_view, split_lines,
};
use crate::menu::{
    apply_completion, caret_back, completed, entries_view, file_candidates, file_candidates_exec,
    items_view, key_candidates, key_candidates_exec, macro_candidates, macro_candidates_exec,
    menu_items, rank_items, template_text, AutocompleteMenu,
};
use crate::search::{
    advance_target, all_matches, path_order_le, replace_all, replace_text, results_view, sort_by_path,
    sorted_by_path, sources_view,
    SearchResult, SearchState,
};
use crate::text::{chars_of, push_all, string_of};
use crate::vertical::{
    vertical_backspace, vertical_backspace_exec, vertical_insert, vertical_insert_exec,
    VerticalCursor,
};

verus! {

/// The tabs of the right panel.
#[derive(Clone, Copy, Debug, PartialEq, Eq, Structural)]
pub enum RightTab {
    Index,
    Terminal,
    Monitor,
}

/// What the workspace tree asks for.
#[derive(Clone, Debug, PartialEq, Eq)]
pub enum TreeAction {
    OpenFile(String),
    CreateFile(String),
    CreateDir(String),
    Delete(Vec<String>),
}

/// The file or directory operation whose dialog is open.
#[derive(Clone, Debug, PartialEq, Eq)]
pub enum FileOperation {
    NoOperation,
    CreateFile(String),
    CreateDir(String),
    Delete(Vec<String>),
}

/// The editor's state.
pub struct CCslipsApp {
    pub current_file: Option<String>,
    pub editor_text: String,
    pub terminal_log: String,
    pub active_right_tab: RightTab,
    pub is_generating: bool,
    pub jump_request: Option<(usize, usize)>,
    pub bib_cache: BibCache,
    pub label_cache: LabelCache,
    pub active_menu: Option<AutocompleteMenu>,
    pub dismissed_prefix: Option<String>,
    pub search_state: SearchState,
    pub vertical_cursor: Option<VerticalCursor>,
    pub scroll_to_vc: bool,
    pub show_help_window: bool,
    pub active_file_op: FileOperation,
    pub file_op_input: String,
}

pub open spec fn opt_view(o: Option<String>) -> Option<Seq<char>> {
    match o {
        Some(s) => Some(s@),
        None => None,
    }
}

impl CCslipsApp {
    /// A fresh editor with no file open; the log records the start.
    pub fn new() -> (app: CCslipsApp)
        ensures
            app.current_file is None,
            app.editor_text@.len() == 0,
            app.terminal_log@ == "[SYSTEM] Charcoal Slips Editor Initialized."@.push('\n'),
            app.active_right_tab == RightTab::Index,
            !app.is_generating,
            app.jump_request is None,
            app.active_menu is None,
            app.dismissed_prefix is None,
            app.vertical_cursor is None,
            !app.scroll_to_vc,
            !app.show_help_window,
            app.active_file_op == FileOperation::NoOperation,
            app.file_op_input@.len() == 0,
            app.bib_cache.cache.entries().len() == 0,
            app.label_cache.cache.entries().len() == 0,
            !app.search_state.is_active,
            app.search_state.find_query@.len() == 0,
            app.search_state.replace_query@.len() == 0,
            !app.search_state.search_all_files,
            app.search_state.matches@.len() == 0,
            app.search_state.current_match_idx == 0,
            !app.search_state.has_reached_end,
            !app.search_state.focus_find,
            !app.search_state.focus_replace,
            !app.search_state.query_modified,
    {
        let mut app = CCslipsApp {
            current_file: None,
            editor_text: String::new(),
            terminal_log: String::new(),
            active_right_tab: RightTab::Index,
            is_generating: false,
            jump_request: None,
            bib_cache: BibCache::new(),
            label_cache: LabelCache::new(),
            active_menu: None,
            dismissed_prefix: None,
            search_state: SearchState::default(),
            vertical_cursor: None,
            scroll_to_vc: false,
            show_help_window: false,
            active_file_op: FileOperation::NoOperation,
            file_op_input: String::new(),
        };
        app.append_log("[SYSTEM] Charcoal Slips Editor Initialized.");
        app
    }

    /// Adds a line to the terminal log.
    pub fn append_log(&mut self, message: &str)
        ensures
            final(self).terminal_log@ == old(self).terminal_log@ + message@.push('\n'),
            final(self).editor_text == old(self).editor_text,
            final(self).current_file == old(self).current_file,
            final(self).active_right_tab == old(self).active_right_tab,
            final(self).is_generating == old(self).is_generating,
            final(self).jump_request == old(self).jump_request,
            final(self).active_menu == old(self).active_menu,
            final(self).dismissed_prefix == old(self).dismissed_prefix,
            final(self).search_state == old(self).search_state,
            final(self).vertical_cursor == old(self).vertical_cursor,
            final(self).scroll_to_vc == old(self).scroll_to_vc,
            final(self).show_help_window == old(self).show_help_window,
            final(self).active_file_op == old(self).active_file_op,
            final(self).file_op_input == old(self).file_op_input,
            final(self).bib_cache == old(self).bib_cache,
            final(self).label_cache == old(self).label_cache,
    {
        let log = chars_of(self.terminal_log.as_str());
        let msg = chars_of(message);
        let mut all: Vec<char> = Vec::new();
        push_all(&mut all, &log);
        push_all(&mut all, &msg);
        all.push('\n');
        self.terminal_log = string_of(&all);
    }

    /// (line, column) of character index `index` of the buffer (see `line_col`).
    pub fn char_index_to_line_col(&self, index: usize) -> (r: (usize, usize))
        requires
            self.editor_text@.len() < usize::MAX,
        ensures
            (r.0 as int, r.1 as int) == line_col(self.editor_text@, index as int),
    {
        let v = chars_of(self.editor_text.as_str());
        let ls = lines_of(&v);
        let ghost lv = lines_view(ls@);
        proof {
            lemma_split_lines_props(v@);
            lemma_line_start_total(lv);
        }
        let mut current: usize = 0;
        let mut k: usize = 0;
        while k < ls.len()
            invariant
                k <= ls@.len(),
                lv == lines_view(ls@),
                lv.len() >= 1,
                v@.len() < usize::MAX,
                line_start(lv, lv.len() as int) == v@.len() + 1,
                current as int == line_start(lv, k as int),
                current <= index,
                lv == split_lines(self.editor_text@),
                line_col_from(lv, index as int, k as int) == line_col_from(lv, index as int, 0),
            decreases ls@.len() - k,
        {
            proof {
                lemma_line_start_mono(lv, k as int, lv.len() as int);
            }
            let len = ls[k].len();
            assert(lv[k as int].len() == len);
            if current + len >= index {
                return (k, index - current);
            }
            current = current + len + 1;
            k = k + 1;
        }
        (0, 0)
    }

    /// The character index of (`line_idx`, `col`) in the buffer (see `char_index`).
    pub fn line_col_to_char_index(&self, line_idx: usize, col: usize) -> (r: usize)
        requires
            self.editor_text@.len() < usize::MAX,
        ensures
            r as int == char_index(self.editor_text@, line_idx as int, col as int),
    {
        let v = chars_of(self.editor_text.as_str());
        let ls = lines_of(&v);
        let ghost lv = lines_view(ls@);
        proof {
            lemma_split_lines_props(v@);
            lemma_line_start_total(lv);
        }
        let mut abs: usize = 0;
        let mut k: usize = 0;
        while k < ls.len()
            invariant
                k <= ls@.len(),
                lv == lines_view(ls@),
                lv.len() >= 1,
                v@.len() < usize::MAX,
                line_start(lv, lv.len() as int) == v@.len() + 1,
                abs as int == line_start(lv, k as int),
                k <= line_idx,
                lv == split_lines(self.editor_text@),
            decreases ls@.len() - k,
        {
            proof {
                lemma_line_start_mono(lv, k as int, lv.len() as int);
            }
            let len = ls[k].len();
            assert(lv[k as int].len() == len);
            if k == line_idx {
                return abs + if len < col { len } else { col };
            }
            abs = abs + len + 1;
            k = k + 1;
        }
        abs
    }

    /// Types `text` at the vertical cursor: it goes into every line of the block, at the
    /// caret column (at the end of shorter lines). Returns the caret column after it.
    pub fn apply_vertical_insert_text(&mut self, vc: &VerticalCursor, text: &str) -> (col: usize)
        requires
            vc.col + text@.len() <= usize::MAX,
        ensures
            split_lines(final(self).editor_text@).len() >= split_lines(old(self).editor_text@).len(),
            final(self).jump_request == old(self).jump_request,
            final(self).editor_text@ == vertical_insert(old(self).editor_text@, *vc, text@),
            col == vc.col + text@.len(),
            final(self).terminal_log == old(self).terminal_log,
            final(self).vertical_cursor == old(self).vertical_cursor,
            final(self).current_file == old(self).current_file,
    {
        let v = chars_of(self.editor_text.as_str());
        let t = chars_of(text);
        let out = vertical_insert_exec(&v, vc, &t);
        proof {
            crate::vertical::lemma_insert_keeps_lines(v@, *vc, t@);
        }
        self.editor_text = string_of(&out);
        vc.col + t.len()
    }

    /// A backspace at the vertical cursor: each line of the block loses the character
    /// before the caret column. Returns the caret column after it (unchanged at 0).
    pub fn apply_vertical_backspace(&mut self, vc: &VerticalCursor) -> (col: usize)
        ensures
            split_lines(final(self).editor_text@).len() >= split_lines(old(self).editor_text@).len(),
            final(self).jump_request == old(self).jump_request,
            final(self).editor_text@ == vertical_backspace(old(self).editor_text@, *vc),
            col == if vc.col == 0 { 0 } else { (vc.col - 1) as usize },
            final(self).terminal_log == old(self).terminal_log,
            final(self).vertical_cursor == old(self).vertical_cursor,
            final(self).current_file == old(self).current_file,
    {
        proof {
            crate::vertical::lemma_backspace_keeps_lines(self.editor_text@, *vc);
        }
        if vc.col == 0 {
            return 0;
        }
        let v = chars_of(self.editor_text.as_str());
        let out = vertical_backspace_exec(&v, vc);
        self.editor_text = string_of(&out);
        vc.col - 1
    }
}

/// An input event while the vertical cursor is active.
pub enum VerticalEvent {
    /// The primary pointer button was pressed.
    PrimaryPress,
    Escape,
    ArrowUp,
    ArrowDown,
    ArrowLeft,
    ArrowRight,
    Backspace,
    Enter,
    /// Typed text, and whether Alt was held.
    Text(String, bool),
    Paste(String),
    Other,
}

/// What one event did: whether it was used up, whether it ends vertical editing, whether
/// the caret moved, whether the text changed.
#[derive(Clone, Copy, Debug, PartialEq, Eq, Structural)]
pub struct VerticalStep {
    pub consumed: bool,
    pub clear: bool,
    pub moved: bool,
    pub changed: bool,
}

/// The text an event types into the block, if any.
pub open spec fn event_text(ev: VerticalEvent) -> Option<Seq<char>> {
    match ev {
        VerticalEvent::Enter => Some(seq!['\n']),
        VerticalEvent::Text(t, alt) => if alt && t@ == seq!['\t'] {
            None
        } else {
            Some(t@)
        },
        VerticalEvent::Paste(t) => Some(t@),
        _ => None,
    }
}

/// The cursor arithmetic of an event stays within `usize`.
pub open spec fn event_fits(vc: VerticalCursor, ev: VerticalEvent) -> bool {
    &&& ev is ArrowDown ==> vc.active_line < usize::MAX
    &&& ev is ArrowRight ==> vc.col < usize::MAX
    &&& event_text(ev) matches Some(t) ==> vc.col + t.len() <= usize::MAX
}

/// The menu key the popup reacts to.
#[derive(Clone, Copy, Debug, PartialEq, Eq, Structural)]
pub enum MenuKey {
    ArrowDown,
    ArrowUp,
    /// Tab or Enter: insert the selected item.
    Accept,
    Escape,
}

pub open spec fn prefix_of_context(c: ContextModel) -> Seq<char> {
    match c {
        ContextModel::Macro(p) => p,
        ContextModel::Citation(p) => p,
        ContextModel::File(p) => p,
        ContextModel::Label(p) => p,
        ContextModel::NoContext => Seq::empty(),
    }
}

/// The word a context reports is the text just before the cursor, so that a completion
/// replaces exactly what was typed; the one exception is a text ending in a line break,
/// where the word typed on the line before is reported.
pub proof fn lemma_context_prefix_ends_text(t: Seq<char>)
    requires
        t.len() == 0 || t.last() != '\n',
    ensures
        prefix_of_context(spec_detect_context(t)).is_suffix_of(t),
{
    let n = t.len() as int;
    crate::text::lemma_last_index_of(t, '{');
    match crate::autocomplete::brace_context(t) {
        Some(c) => {
            let b = crate::text::last_index_of(t, '{')->0;
            let term = t.subrange(b + 1, n);
            assert(term =~= t.subrange(n - term.len(), n));
            crate::text::lemma_last_index_of(term, ',');
            match crate::text::last_index_of(term, ',') {
                Some(k) => {
                    let rest = term.subrange(k + 1, term.len() as int);
                    crate::text::lemma_trim_start_suffix(rest);
                    let r = crate::text::trim_start(rest);
                    assert(rest.subrange(rest.len() - r.len(), rest.len() as int) =~= t.subrange(
                        n - r.len(),
                        n,
                    ));
                },
                None => {},
            }
        },
        None => {
            if n > 0 {
                crate::text::lemma_last_index_of(t, '\n');
                let line = crate::autocomplete::last_line(t);
                assert(line =~= t.subrange(n - line.len(), n));
                crate::text::lemma_last_index_of(line, '\\');
                crate::text::lemma_last_index_of(line, '@');
                match crate::autocomplete::macro_trigger_index(line) {
                    Some(i) => {
                        let slice = line.subrange(i, line.len() as int);
                        assert(slice =~= t.subrange(n - slice.len(), n));
                    },
                    None => {},
                }
            }
        },
    }
}

pub open spec fn menu_model(m: AutocompleteMenu) -> (Seq<char>, Seq<(Seq<char>, Seq<char>, Seq<char>)>, int, int, int) {
    (m.prefix@, items_view(m.items@), m.selected as int, m.start as int, m.end as int)
}

impl CCslipsApp {
    /// The number of lines of the buffer (at least one).
    pub fn line_count(&self) -> (n: usize)
        ensures
            n == split_lines(self.editor_text@).len(),
            n >= 1,
    {
        let v = chars_of(self.editor_text.as_str());
        let ls = lines_of(&v);
        ls.len()
    }

    /// The vertical-edit shortcut: switches vertical editing off when it is on; otherwise,
    /// when the caret position is known, switches it on with a one-line block at the
    /// caret's line and column. Returns whether it was switched on.
    pub fn toggle_vertical_edit(&mut self, cursor_index: Option<usize>) -> (on: bool)
        requires
            old(self).editor_text@.len() < usize::MAX,
        ensures
            final(self).jump_request == old(self).jump_request,
            old(self).vertical_cursor is Some ==> !on && final(self).vertical_cursor is None
                && final(self).terminal_log@ == old(self).terminal_log@
                + "[SYSTEM] Vertical edit mode deactivated."@.push('\n'),
            old(self).vertical_cursor is None && cursor_index is None ==> !on
                && final(self).vertical_cursor is None && final(self).terminal_log == old(self).terminal_log,
            old(self).vertical_cursor is None && cursor_index is Some ==> on
                && final(self).scroll_to_vc && final(self).terminal_log@ == old(self).terminal_log@
                + "[SYSTEM] Vertical edit mode activated."@.push('\n'),
            old(self).vertical_cursor is None && cursor_index is Some ==> (final(self).vertical_cursor matches Some(vc)
                && vc.anchor_line == vc.active_line
                && (vc.active_line as int, vc.col as int) == line_col(old(self).editor_text@, cursor_index.unwrap() as int)),
            final(self).editor_text == old(self).editor_text,
            final(self).vertical_cursor matches Some(v) ==> v.anchor_line < split_lines(final(self).editor_text@).len()
                && v.active_line < split_lines(final(self).editor_text@).len(),
    {
        proof {
            lemma_split_lines_props(self.editor_text@);
            if let Some(i) = cursor_index {
                crate::lines::lemma_line_col_from_line(split_lines(self.editor_text@), i as int, 0);
            }
        }
        if self.vertical_cursor.is_some() {
            self.vertical_cursor = None;
            self.append_log("[SYSTEM] Vertical edit mode deactivated.");
            return false;
        }
        match cursor_index {
            Some(i) => {
                let (line, col) = self.char_index_to_line_col(i);
                self.vertical_cursor = Some(VerticalCursor { anchor_line: line, active_line: line, col });
                self.scroll_to_vc = true;
                self.append_log("[SYSTEM] Vertical edit mode activated.");
                true
            },
            None => false,
        }
    }

    /// Applies one input event to the vertical cursor `vc` (the caller's working copy):
    /// arrows move the active line (down at most to `total_lines - 1`) or the column,
    /// Escape and a pointer press end the mode, Backspace/Enter/text/paste edit the block.
    /// Tab typed with Alt held is left alone.
    pub fn vertical_edit_event(&mut self, vc: &mut VerticalCursor, ev: &VerticalEvent, total_lines: usize) -> (r: VerticalStep)
        requires
            event_fits(*old(vc), *ev),
        ensures
            split_lines(final(self).editor_text@).len() >= split_lines(old(self).editor_text@).len(),
            old(self).vertical_cursor matches Some(v) && v.anchor_line < split_lines(old(self).editor_text@).len()
                && v.active_line < split_lines(old(self).editor_text@).len() ==> (final(self).vertical_cursor matches Some(
                w,
            ) && w.anchor_line < split_lines(final(self).editor_text@).len() && w.active_line < split_lines(
                final(self).editor_text@,
            ).len()),
            final(self).jump_request == old(self).jump_request,
            final(self).vertical_cursor == old(self).vertical_cursor,
            final(self).terminal_log == old(self).terminal_log,
            final(self).current_file == old(self).current_file,
            match *ev {
                VerticalEvent::PrimaryPress => r == VerticalStep { consumed: false, clear: true, moved: false, changed: false }
                    && *final(vc) == *old(vc) && final(self).editor_text == old(self).editor_text,
                VerticalEvent::Escape => r == VerticalStep { consumed: true, clear: true, moved: false, changed: false }
                    && *final(vc) == *old(vc) && final(self).editor_text == old(self).editor_text,
                VerticalEvent::ArrowUp => r == VerticalStep { consumed: true, clear: false, moved: true, changed: false }
                    && *final(vc) == VerticalCursor {
                        active_line: if old(vc).active_line == 0 { 0 } else { (old(vc).active_line - 1) as usize },
                        ..*old(vc)
                    } && final(self).editor_text == old(self).editor_text,
                VerticalEvent::ArrowDown => r == VerticalStep { consumed: true, clear: false, moved: true, changed: false }
                    && *final(vc) == VerticalCursor {
                        active_line: ({
                            let last = if total_lines == 0 { 0 } else { total_lines - 1 };
                            if old(vc).active_line + 1 < last { (old(vc).active_line + 1) as usize } else { last as usize }
                        }),
                        ..*old(vc)
                    } && final(self).editor_text == old(self).editor_text,
                VerticalEvent::ArrowLeft => r == VerticalStep { consumed: true, clear: false, moved: true, changed: false }
                    && *final(vc) == VerticalCursor {
                        col: if old(vc).col == 0 { 0 } else { (old(vc).col - 1) as usize },
                        ..*old(vc)
                    } && final(self).editor_text == old(self).editor_text,
                VerticalEvent::ArrowRight => r == VerticalStep { consumed: true, clear: false, moved: true, changed: false }
                    && *final(vc) == VerticalCursor { col: (old(vc).col + 1) as usize, ..*old(vc) }
                    && final(self).editor_text == old(self).editor_text,
                VerticalEvent::Backspace => r == VerticalStep { consumed: true, clear: false, moved: true, changed: true }
                    && final(self).editor_text@ == vertical_backspace(old(self).editor_text@, *old(vc))
                    && *final(vc) == VerticalCursor {
                        col: if old(vc).col == 0 { 0 } else { (old(vc).col - 1) as usize },
                        ..*old(vc)
                    },
                VerticalEvent::Other => r == VerticalStep { consumed: false, clear: false, moved: false, changed: false }
                    && *final(vc) == *old(vc) && final(self).editor_text == old(self).editor_text,
                _ => match event_text(*ev) {
                    Some(t) => r == VerticalStep { consumed: true, clear: false, moved: true, changed: true }
                        && final(self).editor_text@ == vertical_insert(old(self).editor_text@, *old(vc), t)
                        && *final(vc) == VerticalCursor { col: (old(vc).col + t.len()) as usize, ..*old(vc) },
                    None => r == VerticalStep { consumed: false, clear: false, moved: false, changed: false }
                        && *final(vc) == *old(vc) && final(self).editor_text == old(self).editor_text,
                },
            },
    {
        let idle = VerticalStep { consumed: false, clear: false, moved: false, changed: false };
        let moved = VerticalStep { consumed: true, clear: false, moved: true, changed: false };
        let edited = VerticalStep { consumed: true, clear: false, moved: true, changed: true };
        match ev {
            VerticalEvent::PrimaryPress => VerticalStep { consumed: false, clear: true, moved: false, changed: false },
            VerticalEvent::Escape => VerticalStep { consumed: true, clear: true, moved: false, changed: false },
            VerticalEvent::ArrowUp => {
                vc.active_line = if vc.active_line == 0 { 0 } else { vc.active_line - 1 };
                moved
            },
            VerticalEvent::ArrowDown => {
                let last = if total_lines == 0 { 0 } else { total_lines - 1 };
                vc.active_line = if vc.active_line + 1 < last { vc.active_line + 1 } else { last };
                moved
            },
            VerticalEvent::ArrowLeft => {
                vc.col = if vc.col == 0 { 0 } else { vc.col - 1 };
                moved
            },
            VerticalEvent::ArrowRight => {
                vc.col = vc.col + 1;
                moved
            },
            VerticalEvent::Backspace => {
                let c = self.apply_vertical_backspace(vc);
                vc.col = c;
                edited
            },
            VerticalEvent::Enter => {
                proof {
                    reveal_strlit("\n");
                    assert("\n"@ == seq!['\n']);
                }
                let c = self.apply_vertical_insert_text(vc, "\n");
                vc.col = c;
                edited
            },
            VerticalEvent::Text(t, alt) => {
                let tv = chars_of(t.as_str());
                if *alt && tv.len() == 1 && tv[0] == '\t' {
                    assert(t@ == seq!['\t']);
                    idle
                } else {
                    proof {
                        if *alt {
                            assert(t@ != seq!['\t']) by {
                                if t@ == seq!['\t'] {
                                    assert(tv@ == seq!['\t']);
                                }
                            }
                        }
                    }
                    let c = self.apply_vertical_insert_text(vc, t.as_str());
                    vc.col = c;
                    edited
                }
            },
            VerticalEvent::Paste(t) => {
                let c = self.apply_vertical_insert_text(vc, t.as_str());
                vc.col = c;
                edited
            },
            VerticalEvent::Other => idle,
        }
    }

    /// After the events of a frame: ends vertical editing (logging it) when an event asked
    /// to; otherwise keeps the block within the buffer's lines and stores the cursor, and
    /// when the caret moved or the text changed, asks for the view to follow it and returns
    /// the character index of the caret on the active line.
    pub fn finish_vertical_edit(&mut self, vc: VerticalCursor, clear: bool, touched: bool) -> (r: Option<usize>)
        requires
            old(self).editor_text@.len() < usize::MAX,
        ensures
            final(self).jump_request == old(self).jump_request,
            final(self).editor_text == old(self).editor_text,
            final(self).vertical_cursor matches Some(v) ==> v.anchor_line < split_lines(final(self).editor_text@).len()
                && v.active_line < split_lines(final(self).editor_text@).len(),
            clear ==> r is None && final(self).vertical_cursor is None && final(self).terminal_log@
                == old(self).terminal_log@ + "[SYSTEM] Vertical edit mode deactivated."@.push('\n'),
            !clear ==> {
                let last = split_lines(old(self).editor_text@).len() - 1;
                &&& final(self).vertical_cursor == Some(VerticalCursor {
                    anchor_line: if vc.anchor_line < last { vc.anchor_line } else { last as usize },
                    active_line: if vc.active_line < last { vc.active_line } else { last as usize },
                    col: vc.col,
                })
                &&& final(self).terminal_log == old(self).terminal_log
                &&& touched ==> final(self).scroll_to_vc && (r matches Some(i) && i as int == char_index(
                    old(self).editor_text@,
                    if vc.active_line < last { vc.active_line as int } else { last },
                    vc.col as int,
                ))
                &&& !touched ==> r is None && final(self).scroll_to_vc == old(self).scroll_to_vc
            },
    {
        if clear {
            self.vertical_cursor = None;
            self.append_log("[SYSTEM] Vertical edit mode deactivated.");
            return None;
        }
        let last = self.line_count() - 1;
        let fixed = VerticalCursor {
            anchor_line: if vc.anchor_line < last { vc.anchor_line } else { last },
            active_line: if vc.active_line < last { vc.active_line } else { last },
            col: vc.col,
        };
        self.vertical_cursor = Some(fixed);
        if touched {
            self.scroll_to_vc = true;
            Some(self.line_col_to_char_index(fixed.active_line, fixed.col))
        } else {
            None
        }
    }
}

/// The selected item of a popup can be inserted over its range of `text`.
pub open spec fn accept_ok(m: AutocompleteMenu, text: Seq<char>) -> bool {
    let raw = m.items@[m.selected as int].insert@;
    m.start <= m.end <= text.len() && m.start + template_text(raw).len() >= caret_back(raw)
}

/// The popup for a list of items: shown only when there is at least one.
pub open spec fn popup_of(
    items: Seq<(Seq<char>, Seq<char>, Seq<char>)>,
    prefix: Seq<char>,
    cursor: int,
) -> Option<(Seq<char>, Seq<(Seq<char>, Seq<char>, Seq<char>)>, int, int, int)> {
    if items.len() > 0 {
        Some((prefix, items, 0, if prefix.len() <= cursor { cursor - prefix.len() } else { 0 }, cursor))
    } else {
        None
    }
}

pub open spec fn menu_opt_model(m: Option<AutocompleteMenu>) -> Option<(Seq<char>, Seq<(Seq<char>, Seq<char>, Seq<char>)>, int, int, int)> {
    match m {
        Some(x) => Some(menu_model(x)),
        None => None,
    }
}

/// The prefix typed in a context (empty without one).
pub fn context_prefix(ctx: &AutocompleteContext) -> (r: String)
    ensures
        r@ == prefix_of_context(ctx@),
{
    match ctx {
        AutocompleteContext::Macro(x) => x.clone(),
        AutocompleteContext::Citation(x) => x.clone(),
        AutocompleteContext::File(x) => x.clone(),
        AutocompleteContext::Label(x) => x.clone(),
        AutocompleteContext::NoContext => String::new(),
    }
}

impl CCslipsApp {
    /// Whether the popup's selected item can be inserted now.
    pub fn can_accept(&self) -> (b: bool)
        ensures
            b == (self.active_menu matches Some(m) && m.wf() && accept_ok(m, self.editor_text@)),
    {
        match &self.active_menu {
            Some(m) => {
                if !(m.items.len() > 0 && m.selected < m.items.len() && m.start <= m.end) {
                    return false;
                }
                let v = chars_of(self.editor_text.as_str());
                if m.end > v.len() {
                    return false;
                }
                let raw = chars_of(m.items[m.selected].insert.as_str());
                let marker = chars_of("$CURSOR$");
                let none: Vec<char> = Vec::new();
                proof {
                    reveal_strlit("$CURSOR$");
                }
                let cleaned = crate::search::replace_text(&raw, &marker, &none);
                let back: usize = match crate::text::find_seq_from(&raw, &marker, 0) {
                    Some(i) => {
                        proof {
                            crate::text::lemma_find_from_props(raw@, marker@, 0);
                        }
                        raw.len() - (i + marker.len())
                    },
                    None => 0,
                };
                m.start as u128 + cleaned.len() as u128 >= back as u128
            },
            None => false,
        }
    }

    /// A key pressed while the popup is open: arrows move the selection (wrapping),
    /// Tab/Enter insert the selected template over the typed prefix and put the caret at
    /// its marker, Escape closes the popup and remembers the prefix so the same macro
    /// prefix does not reopen it. Returns whether the key was used, and where to put the
    /// caret. Without a popup nothing happens.
    pub fn intercept_autocomplete_navigation(&mut self, key: MenuKey) -> (r: (bool, Option<(usize, usize)>))
        requires
            old(self).active_menu matches Some(m) ==> m.wf() && (key == MenuKey::Accept ==> accept_ok(m, old(self).editor_text@)),
        ensures
            final(self).search_state == old(self).search_state,
            final(self).current_file == old(self).current_file,
            old(self).active_menu is None ==> r == (false, None::<(usize, usize)>) && final(self).active_menu is None
                && final(self).editor_text == old(self).editor_text
                && final(self).dismissed_prefix == old(self).dismissed_prefix,
            old(self).active_menu matches Some(m) ==> r.0 && match key {
                MenuKey::ArrowDown => r.1 is None && final(self).editor_text == old(self).editor_text
                    && menu_opt_model(final(self).active_menu) == Some(
                        (m.prefix@, items_view(m.items@), crate::search::next_index(m.selected as int, m.items@.len() as int), m.start as int, m.end as int),
                    ),
                MenuKey::ArrowUp => r.1 is None && final(self).editor_text == old(self).editor_text
                    && menu_opt_model(final(self).active_menu) == Some(
                        (m.prefix@, items_view(m.items@), crate::search::prev_index(m.selected as int, m.items@.len() as int), m.start as int, m.end as int),
                    ),
                MenuKey::Accept => {
                    let done = completed(old(self).editor_text@, m.start as int, m.end as int, m.items@[m.selected as int].insert@);
                    &&& final(self).editor_text@ == done.0
                    &&& r.1 matches Some(j) && j.0 == j.1 && j.0 as int == done.1
                    &&& final(self).active_menu is None
                    &&& final(self).dismissed_prefix is None
                },
                MenuKey::Escape => r.1 is None && final(self).editor_text == old(self).editor_text
                    && final(self).active_menu is None
                    && opt_view(final(self).dismissed_prefix) == Some(m.prefix@),
            },
    {
        if self.active_menu.is_none() {
            return (false, None);
        }
        let mut m = self.active_menu.take().unwrap();
        match key {
            MenuKey::ArrowDown => {
                m.select_next();
                self.active_menu = Some(m);
                (true, None)
            },
            MenuKey::ArrowUp => {
                m.select_prev();
                self.active_menu = Some(m);
                (true, None)
            },
            MenuKey::Accept => {
                let (text, pos) = apply_completion(
                    self.editor_text.as_str(),
                    m.start,
                    m.end,
                    m.items[m.selected].insert.as_str(),
                );
                self.editor_text = text;
                self.dismissed_prefix = None;
                (true, Some((pos, pos)))
            },
            MenuKey::Escape => {
                self.dismissed_prefix = Some(m.prefix);
                (true, None)
            },
        }
    }

    /// After the editor reacted to input: a selection closes the popup; then, when the
    /// popup is open or the text changed, the editor has focus, the key was not used by
    /// the popup and the caret is a single point, the context at the caret is detected.
    /// Returns it with the caret index (at most the buffer length) when the popup must be
    /// rebuilt, that is unless it is open for the same prefix ending at the caret.
    pub fn autocomplete_prepare(
        &mut self,
        cursor: Option<(usize, usize)>,
        changed: bool,
        has_focus: bool,
        handled: bool,
    ) -> (r: Option<(AutocompleteContext, usize)>)
        ensures
            final(self).jump_request == old(self).jump_request,
            final(self).editor_text == old(self).editor_text,
            final(self).dismissed_prefix == old(self).dismissed_prefix,
            final(self).search_state == old(self).search_state,
            ({
                let menu1 = if cursor matches Some(cr) && cr.0 != cr.1 {
                    None
                } else {
                    old(self).active_menu
                };
                &&& final(self).active_menu == menu1
                &&& if (menu1 is Some || changed) && has_focus && !handled && cursor is Some && cursor.unwrap().0 == cursor.unwrap().1 {
                    let p = cursor.unwrap().0;
                    let c = if p < old(self).editor_text@.len() { p as int } else { old(self).editor_text@.len() as int };
                    let ctx = spec_detect_context(old(self).editor_text@.take(c));
                    let same = menu1 matches Some(m) && m.prefix@ == prefix_of_context(ctx) && m.end == c;
                    if same {
                        r is None
                    } else {
                        r matches Some(x) && x.0@ == ctx && x.1 == c
                    }
                } else {
                    r is None
                }
            }),
    {
        if let Some((p, q)) = cursor {
            if p != q {
                self.active_menu = None;
            }
        }
        let evaluate = self.active_menu.is_some() || changed;
        if !(evaluate && has_focus && !handled) {
            return None;
        }
        match cursor {
            Some((p, q)) => {
                if p != q {
                    return None;
                }
                let v = chars_of(self.editor_text.as_str());
                let c = if p < v.len() { p } else { v.len() };
                let before = crate::text::string_of_range(&v, 0, c);
                assert(v@.subrange(0, c as int) == v@.take(c as int));
                let ctx = detect_context(before.as_str());
                let pre = context_prefix(&ctx);
                let same = match &self.active_menu {
                    Some(m) => m.prefix == pre && m.end == c,
                    None => false,
                };
                if same {
                    None
                } else {
                    Some((ctx, c))
                }
            },
            None => None,
        }
    }

    /// Rebuilds the popup for the context detected at the caret: citation keys, labels
    /// and file paths come from `candidates` (as gathered by the caller for that context),
    /// templates from `cmds`. A macro prefix that was dismissed leaves the popup as it is;
    /// no context closes the popup and forgets the dismissed prefix.
    pub fn autocomplete_apply(
        &mut self,
        ctx: AutocompleteContext,
        cursor: usize,
        candidates: &Vec<String>,
        cmds: &Vec<AutocompleteEntry>,
    )
        ensures
            final(self).jump_request == old(self).jump_request,
            final(self).editor_text == old(self).editor_text,
            final(self).search_state == old(self).search_state,
            match ctx@ {
                ContextModel::Citation(p) => menu_opt_model(final(self).active_menu) == popup_of(
                    menu_items(key_candidates(crate::order::strings_view(candidates@), p, "bib"@)),
                    p,
                    cursor as int,
                ) && final(self).dismissed_prefix == old(self).dismissed_prefix,
                ContextModel::Label(p) => menu_opt_model(final(self).active_menu) == popup_of(
                    menu_items(key_candidates(crate::order::strings_view(candidates@), p, "label"@)),
                    p,
                    cursor as int,
                ) && final(self).dismissed_prefix == old(self).dismissed_prefix,
                ContextModel::File(p) => menu_opt_model(final(self).active_menu) == popup_of(
                    menu_items(file_candidates(crate::order::strings_view(candidates@), p)),
                    p,
                    cursor as int,
                ) && final(self).dismissed_prefix == old(self).dismissed_prefix,
                ContextModel::Macro(p) => final(self).dismissed_prefix == old(self).dismissed_prefix
                    && if opt_view(old(self).dismissed_prefix) == Some(p) {
                        final(self).active_menu == old(self).active_menu
                    } else {
                        menu_opt_model(final(self).active_menu) == popup_of(
                            menu_items(macro_candidates(entries_view(cmds@), p)),
                            p,
                            cursor as int,
                        )
                    },
                ContextModel::NoContext => final(self).active_menu is None && final(self).dismissed_prefix is None,
            },
    {
        match ctx {
            AutocompleteContext::Citation(p) => {
                let items = rank_items(key_candidates_exec(candidates, p.as_str(), "bib"));
                self.active_menu = Self::popup(p, items, cursor);
            },
            AutocompleteContext::Label(p) => {
                let items = rank_items(key_candidates_exec(candidates, p.as_str(), "label"));
                self.active_menu = Self::popup(p, items, cursor);
            },
            AutocompleteContext::File(p) => {
                let items = rank_items(file_candidates_exec(candidates, p.as_str()));
                self.active_menu = Self::popup(p, items, cursor);
            },
            AutocompleteContext::Macro(p) => {
                let dismissed = match &self.dismissed_prefix {
                    Some(d) => *d == p,
                    None => false,
                };
                if !dismissed {
                    let items = rank_items(macro_candidates_exec(cmds, p.as_str()));
                    self.active_menu = Self::popup(p, items, cursor);
                }
            },
            AutocompleteContext::NoContext => {
                self.active_menu = None;
                self.dismissed_prefix = None;
            },
        }
    }

    fn popup(prefix: String, items: Vec<crate::menu::MenuItem>, cursor: usize) -> (r: Option<AutocompleteMenu>)
        ensures
            menu_opt_model(r) == popup_of(items_view(items@), prefix@, cursor as int),
            r matches Some(m) ==> m.wf(),
    {
        if items.len() == 0 {
            return None;
        }
        let plen = chars_of(prefix.as_str()).len();
        let start = if plen <= cursor { cursor - plen } else { 0 };
        Some(AutocompleteMenu { prefix, items, selected: 0, start, end: cursor })
    }

    /// Escape outside the popup's own handling: an open popup is closed (remembering its
    /// prefix) and the search panel is left as it is; otherwise an open search panel is
    /// closed and its results dropped. Returns whether the editor should take the focus.
    pub fn abort_or_close(&mut self) -> (focus_editor: bool)
        ensures
            final(self).jump_request == old(self).jump_request,
            final(self).editor_text == old(self).editor_text,
            old(self).active_menu matches Some(m) ==> focus_editor && final(self).active_menu is None
                && opt_view(final(self).dismissed_prefix) == Some(m.prefix@)
                && final(self).search_state == old(self).search_state,
            old(self).active_menu is None && old(self).search_state.is_active ==> focus_editor
                && !final(self).search_state.is_active && final(self).search_state.matches@.len() == 0
                && final(self).search_state.find_query@ == old(self).search_state.find_query@
                && final(self).dismissed_prefix == old(self).dismissed_prefix,
            old(self).active_menu is None && !old(self).search_state.is_active ==> !focus_editor
                && final(self).search_state == old(self).search_state
                && final(self).dismissed_prefix == old(self).dismissed_prefix
                && final(self).active_menu is None,
    {
        if let Some(m) = self.active_menu.take() {
            self.dismissed_prefix = Some(m.prefix);
            return true;
        }
        if self.search_state.is_active {
            self.search_state.close_panel();
            return true;
        }
        false
    }
}

/// The texts a search goes through. Searching all files: each listed workspace file
/// (path, text on disk) whose path does not contain `.git`, in the order of their paths
/// (see `sorted_by_path`), the open file read from the buffer instead of the disk.
/// Otherwise the buffer alone, under the open file's path (empty when no file is open).
pub open spec fn search_inputs(
    all: bool,
    listing: Seq<(Seq<char>, Seq<char>)>,
    current: Option<Seq<char>>,
    buffer: Seq<char>,
) -> Seq<(Seq<char>, Seq<char>)> {
    inputs_in_order(all, sorted_by_path(listing), current, buffer)
}

/// The texts a search goes through, taking the listed files in the order given.
pub open spec fn inputs_in_order(
    all: bool,
    listing: Seq<(Seq<char>, Seq<char>)>,
    current: Option<Seq<char>>,
    buffer: Seq<char>,
) -> Seq<(Seq<char>, Seq<char>)>
    decreases listing.len(),
{
    if !all {
        seq![(match current { Some(p) => p, None => Seq::empty() }, buffer)]
    } else if listing.len() == 0 {
        Seq::empty()
    } else {
        let rest = inputs_in_order(all, listing.drop_last(), current, buffer);
        let (path, disk) = listing.last();
        if crate::text::contains_seq(path, ".git"@) {
            rest
        } else {
            rest.push((path, if current == Some(path) { buffer } else { disk }))
        }
    }
}

proof fn lemma_inputs_read_open_buffer(
    all: bool,
    listing: Seq<(Seq<char>, Seq<char>)>,
    current: Seq<char>,
    buffer: Seq<char>,
)
    ensures
        forall|k: int|
            0 <= k < inputs_in_order(all, listing, Some(current), buffer).len() && (#[trigger] inputs_in_order(
                all,
                listing,
                Some(current),
                buffer,
            )[k]).0 == current ==> inputs_in_order(all, listing, Some(current), buffer)[k].1 == buffer,
    decreases listing.len(),
{
    let whole = inputs_in_order(all, listing, Some(current), buffer);
    if all && listing.len() > 0 {
        let rest = inputs_in_order(all, listing.drop_last(), Some(current), buffer);
        lemma_inputs_read_open_buffer(all, listing.drop_last(), current, buffer);
        assert forall|k: int| 0 <= k < whole.len() && (#[trigger] whole[k]).0 == current implies whole[k].1
            == buffer by {
            if k < rest.len() {
                assert(whole[k] == rest[k]);
            }
        }
    } else if !all {
        assert forall|k: int| 0 <= k < whole.len() && (#[trigger] whole[k]).0 == current implies whole[k].1
            == buffer by {
            assert(k == 0);
        }
    }
}

/// A search reads the open file from the buffer, never from the disk, so that unsaved
/// changes are searched: every searched text listed under the open file's path is the
/// buffer.
pub proof fn lemma_search_reads_open_buffer(
    all: bool,
    listing: Seq<(Seq<char>, Seq<char>)>,
    current: Seq<char>,
    buffer: Seq<char>,
)
    ensures
        forall|k: int|
            0 <= k < search_inputs(all, listing, Some(current), buffer).len() && (#[trigger] search_inputs(
                all,
                listing,
                Some(current),
                buffer,
            )[k]).0 == current ==> search_inputs(all, listing, Some(current), buffer)[k].1 == buffer,
{
    lemma_inputs_read_open_buffer(all, sorted_by_path(listing), current, buffer);
}

/// The files a replace-all rewrites: each listed workspace file whose path does not
/// contain `.git` and whose text contains the query, with its new text.
pub open spec fn rewritten(listing: Seq<(Seq<char>, Seq<char>)>, q: Seq<char>, r: Seq<char>) -> Seq<(Seq<char>, Seq<char>)>
    decreases listing.len(),
{
    if listing.len() == 0 {
        Seq::empty()
    } else {
        let rest = rewritten(listing.drop_last(), q, r);
        let (path, text) = listing.last();
        if !crate::text::contains_seq(path, ".git"@) && crate::text::contains_seq(text, q) {
            rest.push((path, replace_all(text, q, r)))
        } else {
            rest
        }
    }
}

/// The listing once the rewritten files hold their new text.
pub open spec fn after_writes(listing: Seq<(Seq<char>, Seq<char>)>, q: Seq<char>, r: Seq<char>) -> Seq<(Seq<char>, Seq<char>)> {
    listing.map_values(
        |e: (Seq<char>, Seq<char>)|
            if !crate::text::contains_seq(e.0, ".git"@) && crate::text::contains_seq(e.1, q) {
                (e.0, replace_all(e.1, q, r))
            } else {
                e
            },
    )
}

/// The last listed file that is the open file and gets rewritten, with its new text.
pub open spec fn rewritten_current(
    listing: Seq<(Seq<char>, Seq<char>)>,
    current: Option<Seq<char>>,
    q: Seq<char>,
    r: Seq<char>,
) -> Option<Seq<char>>
    decreases listing.len(),
{
    if listing.len() == 0 {
        None
    } else {
        let (path, text) = listing.last();
        if current == Some(path) && !crate::text::contains_seq(path, ".git"@) && crate::text::contains_seq(text, q) {
            Some(replace_all(text, q, r))
        } else {
            rewritten_current(listing.drop_last(), current, q, r)
        }
    }
}

/// The buffer with characters `start..end` replaced by `rep` (unchanged when the range is
/// not within the buffer).
pub open spec fn spliced(text: Seq<char>, start: int, end: int, rep: Seq<char>) -> Seq<char> {
    if start <= text.len() && end <= text.len() {
        text.take(start) + rep + text.skip(end)
    } else {
        text
    }
}

fn contains_git(path: &String) -> (b: bool)
    ensures
        b == crate::text::contains_seq(path@, ".git"@),
{
    let v = chars_of(path.as_str());
    let g = chars_of(".git");
    crate::text::find_seq_from(&v, &g, 0).is_some()
}

impl CCslipsApp {
    /// The texts to search (see `search_inputs`): when searching all files, the listing is
    /// first ordered by path.
    pub fn search_sources_for(&self, listing: &Vec<(String, String)>) -> (r: Vec<(String, String)>)
        ensures
            sources_view(r@) == search_inputs(self.search_state.search_all_files, sources_view(listing@), opt_view(self.current_file), self.editor_text@),
            self.search_state.search_all_files ==> forall|k: int|
                0 <= k < sorted_by_path(sources_view(listing@)).len() - 1 ==> path_order_le(
                    #[trigger] sorted_by_path(sources_view(listing@))[k].0,
                    sorted_by_path(sources_view(listing@))[k + 1].0,
                ),
    {
        let mut r: Vec<(String, String)> = Vec::new();
        if !self.search_state.search_all_files {
            let path = match &self.current_file {
                Some(p) => p.clone(),
                None => String::new(),
            };
            r.push((path, self.editor_text.clone()));
            assert(sources_view(r@) == seq![(r@[0].0@, r@[0].1@)]);
            return r;
        }
        let sorted = sort_by_path(listing);
        let ghost lv = sources_view(sorted@);
        proof {
            let sl = sorted_by_path(sources_view(listing@));
            assert forall|k: int| 0 <= k < sl.len() - 1 implies path_order_le(#[trigger] sl[k].0, sl[k + 1].0) by {
                assert(sl[k] == (sorted@[k].0@, sorted@[k].1@));
                assert(sl[k + 1] == (sorted@[k + 1].0@, sorted@[k + 1].1@));
            }
        }
        let mut i: usize = 0;
        while i < sorted.len()
            invariant
                i <= sorted@.len(),
                lv == sources_view(sorted@),
                self.search_state.search_all_files,
                sources_view(r@) == inputs_in_order(true, lv.take(i as int), opt_view(self.current_file), self.editor_text@),
            decreases sorted@.len() - i,
        {
            assert(lv.take(i + 1).drop_last() == lv.take(i as int));
            assert(lv.take(i + 1).last() == (sorted@[i as int].0@, sorted@[i as int].1@));
            let path = &sorted[i].0;
            if !contains_git(path) {
                let is_current = match &self.current_file {
                    Some(c) => *c == *path,
                    None => false,
                };
                let text = if is_current { self.editor_text.clone() } else { sorted[i].1.clone() };
                let ghost before = sources_view(r@);
                r.push((path.clone(), text));
                assert(sources_view(r@) == before.push((path@, text@)));
            }
            i = i + 1;
        }
        assert(lv.take(sorted@.len() as int) == lv);
        r
    }

    /// Runs the search over `listing` (every workspace file with its text on disk, in any
    /// order; ignored unless searching all files), see `search_inputs` and
    /// `SearchState::search_sources`: the files are searched in the order of their paths,
    /// so the matches come ordered by path, then by start. With `auto_jump` and some
    /// match, also jumps to the current match and returns it.
    pub fn perform_search(&mut self, listing: &Vec<(String, String)>, keep_proximity: bool, auto_jump: bool) -> (r: Option<SearchResult>)
        ensures
            old(self).search_state.search_all_files ==> forall|k: int|
                0 <= k < sorted_by_path(sources_view(listing@)).len() - 1 ==> path_order_le(
                    #[trigger] sorted_by_path(sources_view(listing@))[k].0,
                    sorted_by_path(sources_view(listing@))[k + 1].0,
                ),
            final(self).editor_text == old(self).editor_text,
            final(self).current_file == old(self).current_file,
            SearchState::searched(
                old(self).search_state,
                final(self).search_state,
                search_inputs(old(self).search_state.search_all_files, sources_view(listing@), opt_view(old(self).current_file), old(self).editor_text@),
                keep_proximity,
            ),
            !auto_jump || final(self).search_state.matches@.len() == 0 ==> r is None && final(self).jump_request == old(self).jump_request,
            auto_jump && final(self).search_state.matches@.len() > 0 ==> (r matches Some(t)
                && t.model() == final(self).search_state.matches@[final(self).search_state.current_match_idx as int].model()
                && final(self).jump_request == Some((t.start, t.end))),
    {
        let srcs = self.search_sources_for(listing);
        self.search_state.search_sources(&srcs, keep_proximity);
        if auto_jump && self.search_state.matches.len() > 0 {
            proof {
                assert(self.search_state.current_match_idx < self.search_state.matches@.len()) by {
                    if self.search_state.find_query@.len() > 0 {
                        let ms = results_view(self.search_state.matches@);
                        assert(ms.len() == self.search_state.matches@.len());
                    }
                }
            }
            self.jump_to_current_match()
        } else {
            None
        }
    }

    /// Jumps to the current match (the index first brought within the results): asks for
    /// it to be selected and returns it, so that the caller can open its file when that
    /// is not the open one. Without matches nothing happens.
    pub fn jump_to_current_match(&mut self) -> (r: Option<SearchResult>)
        ensures
            final(self).editor_text == old(self).editor_text,
            final(self).current_file == old(self).current_file,
            final(self).search_state.matches@ == old(self).search_state.matches@,
            final(self).search_state.same_settings(old(self).search_state),
            final(self).search_state.query_modified == old(self).search_state.query_modified,
            final(self).search_state.has_reached_end == old(self).search_state.has_reached_end,
            old(self).search_state.matches@.len() == 0 ==> r is None && final(self).jump_request == old(self).jump_request
                && final(self).search_state.current_match_idx == old(self).search_state.current_match_idx,
            old(self).search_state.matches@.len() > 0 ==> final(self).search_state.current_match_idx as int == (
                if old(self).search_state.current_match_idx < old(self).search_state.matches@.len() {
                    old(self).search_state.current_match_idx as int
                } else {
                    old(self).search_state.matches@.len() - 1
                }),
            old(self).search_state.matches@.len() > 0 ==> (r matches Some(t)
                && t.model() == old(self).search_state.matches@[final(self).search_state.current_match_idx as int].model()
                && final(self).jump_request == Some((t.start, t.end))),
    {
        let t = self.search_state.current_target();
        match t {
            Some(m) => {
                self.jump_request = Some((m.start, m.end));
                Some(m)
            },
            None => None,
        }
    }

    /// Replaces the current match by the replace text, once the caller has jumped to it
    /// (opening its file): splices the buffer, searches again over `listing` (as in
    /// `perform_search`), then moves on past the inserted text (see
    /// `SearchState::advance_after_replace`). Returns the next match to jump to, whose file
    /// the caller opens when needed; when there is none, the end is reached and the caret
    /// goes right after the inserted text. Does nothing unless replacing is enabled.
    pub fn replace_current_match(&mut self, listing: &Vec<(String, String)>) -> (r: Option<SearchResult>)
        requires
            forall|k: int|
                0 <= k < old(self).search_state.matches@.len() ==> #[trigger] old(self).search_state.matches@[k].start
                    + old(self).search_state.replace_query@.len() <= usize::MAX,
        ensures
            final(self).current_file == old(self).current_file,
            !(old(self).search_state.matches@.len() > 0 && !old(self).search_state.has_reached_end
                && !old(self).search_state.query_modified) ==> r is None && final(self).editor_text
                == old(self).editor_text && final(self).search_state == old(self).search_state
                && final(self).jump_request == old(self).jump_request,
            old(self).search_state.matches@.len() > 0 && !old(self).search_state.has_reached_end
                && !old(self).search_state.query_modified ==> {
                let ss = old(self).search_state;
                let order = if ss.current_match_idx < ss.matches@.len() { ss.current_match_idx as int } else { ss.matches@.len() - 1 };
                let m = ss.matches@[order].model();
                let rq = ss.replace_query@;
                let text = spliced(old(self).editor_text@, m.1, m.2, rq);
                let found = results_view(final(self).search_state.matches@);
                let t = advance_target(found, order, m, rq.len() as int);
                &&& final(self).editor_text@ == text
                &&& final(self).search_state.find_query@ == ss.find_query@
                &&& ss.find_query@.len() > 0 ==> found == all_matches(
                    search_inputs(ss.search_all_files, sources_view(listing@), opt_view(old(self).current_file), text),
                    ss.find_query@,
                )
                &&& t < found.len() ==> (r matches Some(n) && n.model() == found[t]
                    && final(self).search_state.current_match_idx == t
                    && !final(self).search_state.has_reached_end
                    && final(self).jump_request == Some((n.start, n.end)))
                &&& t >= found.len() ==> r is None && final(self).search_state.has_reached_end
                    && final(self).jump_request == Some(((m.1 + rq.len()) as usize, (m.1 + rq.len()) as usize))
            },
    {
        if !self.search_state.can_replace() {
            return None;
        }
        let target = self.search_state.current_target();
        let m = target.unwrap();
        let order = self.search_state.current_match_idx;
        let v = chars_of(self.editor_text.as_str());
        let rq = chars_of(self.search_state.replace_query.as_str());
        assert(m.start + rq@.len() <= usize::MAX);
        if m.start <= v.len() && m.end <= v.len() {
            let mut out: Vec<char> = Vec::new();
            crate::text::push_range(&mut out, &v, 0, m.start);
            push_all(&mut out, &rq);
            crate::text::push_range(&mut out, &v, m.end, v.len());
            assert(v@.subrange(0, m.start as int) == v@.take(m.start as int));
            assert(v@.subrange(m.end as int, v@.len() as int) == v@.skip(m.end as int));
            self.editor_text = string_of(&out);
        }
        self.perform_search(listing, false, false);
        let ins = rq.len();
        match self.search_state.advance_after_replace(order, &m, ins) {
            Some(n) => {
                self.jump_request = Some((n.start, n.end));
                Some(n)
            },
            None => {
                let e = m.start + ins;
                self.jump_request = Some((e, e));
                None
            },
        }
    }

    /// Replaces every occurrence of the find query by the replace text: in each listed
    /// workspace file that contains it (see `rewritten`) when searching all files (the
    /// caller saved the buffer first, so the listing holds it), and in the buffer
    /// otherwise; the buffer takes the new text of the open file. Then searches again.
    /// Returns the files to write. Does nothing while the query is empty or edited since
    /// it was searched.
    pub fn replace_all_matches(&mut self, listing: &Vec<(String, String)>) -> (writes: Vec<(String, String)>)
        ensures
            final(self).current_file == old(self).current_file,
            final(self).jump_request == old(self).jump_request,
            !(old(self).search_state.find_query@.len() > 0 && !old(self).search_state.query_modified) ==> writes@.len() == 0
                && final(self).editor_text == old(self).editor_text && final(self).search_state == old(self).search_state,
            old(self).search_state.find_query@.len() > 0 && !old(self).search_state.query_modified ==> {
                let ss = old(self).search_state;
                let q = ss.find_query@;
                let rq = ss.replace_query@;
                let lv = sources_view(listing@);
                let text = if ss.search_all_files {
                    match rewritten_current(lv, opt_view(old(self).current_file), q, rq) {
                        Some(t) => t,
                        None => old(self).editor_text@,
                    }
                } else {
                    replace_all(old(self).editor_text@, q, rq)
                };
                &&& final(self).editor_text@ == text
                &&& sources_view(writes@) == if ss.search_all_files { rewritten(lv, q, rq) } else { Seq::empty() }
                &&& SearchState::searched(
                    ss,
                    final(self).search_state,
                    search_inputs(ss.search_all_files, if ss.search_all_files { after_writes(lv, q, rq) } else { lv }, opt_view(old(self).current_file), text),
                    false,
                )
            },
    {
        let q = chars_of(self.search_state.find_query.as_str());
        if q.len() == 0 || self.search_state.query_modified {
            let w: Vec<(String, String)> = Vec::new();
            return w;
        }
        let rq = chars_of(self.search_state.replace_query.as_str());
        let mut writes: Vec<(String, String)> = Vec::new();
        if self.search_state.search_all_files {
            let ghost lv = sources_view(listing@);
            let ghost cur = opt_view(self.current_file);
            let ghost text0 = self.editor_text@;
            let ghost cf0 = self.current_file;
            let ghost ss0 = self.search_state;
            let ghost jr0 = self.jump_request;
            let mut updated: Vec<(String, String)> = Vec::new();
            let mut i: usize = 0;
            while i < listing.len()
                invariant
                    i <= listing@.len(),
                    lv == sources_view(listing@),
                    cur == opt_view(self.current_file),
                    self.current_file == cf0,
                    self.search_state == ss0,
                    self.jump_request == jr0,
                    q@ == self.search_state.find_query@,
                    rq@ == self.search_state.replace_query@,
                    q@.len() > 0,
                    sources_view(writes@) == rewritten(lv.take(i as int), q@, rq@),
                    sources_view(updated@) == after_writes(lv.take(i as int), q@, rq@),
                    self.editor_text@ == match rewritten_current(lv.take(i as int), cur, q@, rq@) {
                        Some(t) => t,
                        None => text0,
                    },
                decreases listing@.len() - i,
            {
                let ghost pre = lv.take(i as int);
                assert(lv.take(i + 1).drop_last() == pre);
                assert(lv.take(i + 1).last() == (listing@[i as int].0@, listing@[i as int].1@));
                let path = &listing[i].0;
                let text = chars_of(listing[i].1.as_str());
                let hit = !contains_git(path) && crate::text::find_seq_from(&text, &q, 0).is_some();
                let ghost before_w = sources_view(writes@);
                let ghost before_u = sources_view(updated@);
                if hit {
                    let new_text = string_of(&replace_text(&text, &q, &rq));
                    let is_current = match &self.current_file {
                        Some(c) => *c == *path,
                        None => false,
                    };
                    if is_current {
                        self.editor_text = new_text.clone();
                    }
                    writes.push((path.clone(), new_text.clone()));
                    updated.push((path.clone(), new_text));
                    assert(sources_view(writes@) == before_w.push((path@, replace_all(text@, q@, rq@))));
                    assert(sources_view(updated@) == before_u.push((path@, replace_all(text@, q@, rq@))));
                } else {
                    updated.push((path.clone(), listing[i].1.clone()));
                    assert(sources_view(updated@) == before_u.push((path@, listing@[i as int].1@)));
                }
                assert(after_writes(lv.take(i + 1), q@, rq@) == after_writes(pre, q@, rq@).push(
                    after_writes(lv.take(i + 1), q@, rq@)[i as int],
                ));
                i = i + 1;
            }
            assert(lv.take(listing@.len() as int) == lv);
            self.perform_search(&updated, false, false);
        } else {
            let v = chars_of(self.editor_text.as_str());
            self.editor_text = string_of(&replace_text(&v, &q, &rq));
            self.perform_search(listing, false, false);
        }
        writes
    }
}

/// What `Path::new(path).starts_with(base)` returns: whether `base` is a prefix of
/// `path`, compared by whole components.
pub uninterp spec fn path_starts_with(path: Seq<char>, base: Seq<char>) -> bool;

/// `std::path::Path::starts_with`: whether the path `path` lies in `base` or is `base`
/// itself. The result is the name `path_starts_with` of the two texts; this library
/// does not restate how `std` compares path components.
#[verifier::external_body]
fn path_starts_with_exec(path: &String, base: &String) -> (b: bool)
    ensures
        b == path_starts_with(path@, base@),
{
    std::path::Path::new(path.as_str()).starts_with(base.as_str())
}

/// The selected characters `start..end` of `text` (clamped to its end).
pub open spec fn selection(text: Seq<char>, start: int, end: int) -> Seq<char> {
    let a = if start < text.len() { start } else { text.len() as int };
    let b = if end < text.len() { end } else { text.len() as int };
    text.subrange(a, b)
}

/// The selection as the log shows it: newlines as spaces.
pub open spec fn one_line(s: Seq<char>) -> Seq<char> {
    s.map_values(|c: char| if c == '\n' { ' ' } else { c })
}

/// The log preview of a selection: the text on one line, cut after its first 50 bytes
/// (followed by `...`) when it is longer.
pub open spec fn ai_preview(sel: Seq<char>) -> Seq<char> {
    let t = one_line(sel);
    if crate::structure::byte_len(t) > 50 {
        t.take(choose|k: int| 0 <= k <= t.len() && crate::structure::byte_len(#[trigger] t.take(k)) == 50)
            + "..."@
    } else {
        t
    }
}

/// The preview can be cut at 50 bytes: short enough, or 50 bytes end on a character.
pub open spec fn preview_cuttable(sel: Seq<char>) -> bool {
    let t = one_line(sel);
    crate::structure::byte_len(t) > 50 ==> exists|k: int| 0 <= k <= t.len() && crate::structure::byte_len(#[trigger] t.take(k)) == 50
}

/// The words of `s`: its maximal runs of non-whitespace characters.
pub open spec fn words(s: Seq<char>) -> Seq<Seq<char>>
    decreases s.len(),
{
    if s.len() == 0 {
        Seq::empty()
    } else {
        let r = words(s.drop_last());
        let c = s.last();
        if crate::text::is_ws(c) {
            r
        } else if s.len() >= 2 && !crate::text::is_ws(s[s.len() - 2]) && r.len() > 0 {
            r.update(r.len() - 1, r.last().push(c))
        } else {
            r.push(seq![c])
        }
    }
}

/// `str::split_whitespace`: the words of `s`.
pub fn split_command(s: &str) -> (r: Vec<String>)
    ensures
        crate::order::strings_view(r@) == words(s@),
{
    let v = chars_of(s);
    let mut out: Vec<String> = Vec::new();
    let mut cur: Vec<char> = Vec::new();
    let mut i: usize = 0;
    while i < v.len()
        invariant
            i <= v@.len(),
            cur@.len() > 0 ==> i > 0 && !crate::text::is_ws(v@[i - 1]),
            cur@.len() == 0 ==> i == 0 || crate::text::is_ws(v@[i - 1]),
            cur@.len() > 0 ==> crate::order::strings_view(out@).push(cur@) == words(v@.take(i as int)),
            cur@.len() == 0 ==> crate::order::strings_view(out@) == words(v@.take(i as int)),
        decreases v@.len() - i,
    {
        let c = v[i];
        let ghost pre = v@.take(i as int);
        assert(v@.take(i + 1).drop_last() == pre);
        assert(v@.take(i + 1).last() == c);
        if crate::text::is_whitespace(c) {
            if cur.len() > 0 {
                let w = string_of(&cur);
                let ghost before = crate::order::strings_view(out@);
                out.push(w);
                assert(crate::order::strings_view(out@) == before.push(cur@));
                cur = Vec::new();
            }
        } else {
            let ghost old_cur = cur@;
            let ghost outv = crate::order::strings_view(out@);
            proof {
                let s2 = v@.take(i + 1);
                let r = words(pre);
                if i > 0 {
                    assert(s2[s2.len() - 2] == v@[i - 1]);
                }
                if old_cur.len() > 0 {
                    assert(r == outv.push(old_cur));
                    assert(r.last() == old_cur);
                    assert(words(s2) == r.update(r.len() - 1, old_cur.push(c)));
                    assert(r.update(r.len() - 1, old_cur.push(c)) == outv.push(old_cur.push(c)));
                } else {
                    assert(words(s2) == r.push(seq![c]));
                    assert(old_cur.push(c) == seq![c]);
                }
            }
            cur.push(c);
        }
        i = i + 1;
    }
    assert(v@.take(v@.len() as int) == v@);
    if cur.len() > 0 {
        let w = string_of(&cur);
        let ghost before = crate::order::strings_view(out@);
        out.push(w);
        assert(crate::order::strings_view(out@) == before.push(cur@));
    }
    out
}

fn concat3(a: &str, b: &str, c: &str) -> (r: String)
    ensures
        r@ == a@ + b@ + c@,
{
    let mut v: Vec<char> = Vec::new();
    push_all(&mut v, &chars_of(a));
    push_all(&mut v, &chars_of(b));
    push_all(&mut v, &chars_of(c));
    string_of(&v)
}

impl CCslipsApp {
    /// Whether `path` must be opened: it is not the open file.
    pub fn needs_open(&self, path: &String) -> (b: bool)
        ensures
            b == (opt_view(self.current_file) != Some(path@)),
    {
        match &self.current_file {
            Some(c) => !(*c == *path),
            None => true,
        }
    }

    /// The file at `path` with text `content` becomes the open buffer.
    pub fn load_buffer(&mut self, path: String, content: String)
        ensures
            final(self).jump_request == old(self).jump_request,
            final(self).editor_text@ == content@,
            opt_view(final(self).current_file) == Some(path@),
            final(self).terminal_log == old(self).terminal_log,
            final(self).search_state == old(self).search_state,
    {
        self.editor_text = content;
        self.current_file = Some(path);
    }

    /// Closes the open file (the caller saved it): the buffer is emptied and the log
    /// records it. Returns whether a file was open.
    pub fn close_buffer(&mut self) -> (closed: bool)
        ensures
            final(self).jump_request == old(self).jump_request,
            closed == old(self).current_file is Some,
            closed ==> final(self).editor_text@.len() == 0 && final(self).current_file is None
                && final(self).terminal_log@ == old(self).terminal_log@ + "[SYSTEM] 📁 Closed current file."@.push('\n'),
            !closed ==> final(self).editor_text == old(self).editor_text && final(self).current_file is None
                && final(self).terminal_log == old(self).terminal_log,
    {
        if self.current_file.is_none() {
            return false;
        }
        self.editor_text = String::new();
        self.current_file = None;
        self.append_log("[SYSTEM] 📁 Closed current file.");
        true
    }

    /// What a click in the workspace tree does: opening a file is returned for the caller
    /// to carry out; creating a file or directory opens its dialog with an empty name;
    /// deleting opens the delete dialog with the chosen paths.
    pub fn apply_tree_action(&mut self, action: TreeAction) -> (open: Option<String>)
        ensures
            final(self).jump_request == old(self).jump_request,
            match action {
                TreeAction::OpenFile(p) => open == Some(p) && final(self).active_file_op == old(self).active_file_op
                    && final(self).file_op_input == old(self).file_op_input,
                TreeAction::CreateFile(p) => open is None && final(self).active_file_op == FileOperation::CreateFile(p)
                    && final(self).file_op_input@.len() == 0,
                TreeAction::CreateDir(p) => open is None && final(self).active_file_op == FileOperation::CreateDir(p)
                    && final(self).file_op_input@.len() == 0,
                TreeAction::Delete(ps) => open is None && final(self).active_file_op == FileOperation::Delete(ps)
                    && final(self).file_op_input == old(self).file_op_input,
            },
            final(self).editor_text == old(self).editor_text,
            final(self).current_file == old(self).current_file,
    {
        match action {
            TreeAction::OpenFile(p) => Some(p),
            TreeAction::CreateFile(p) => {
                self.active_file_op = FileOperation::CreateFile(p);
                self.file_op_input = String::new();
                None
            },
            TreeAction::CreateDir(p) => {
                self.active_file_op = FileOperation::CreateDir(p);
                self.file_op_input = String::new();
                None
            },
            TreeAction::Delete(ps) => {
                self.active_file_op = FileOperation::Delete(ps);
                None
            },
        }
    }

    /// Hands the pending file operation to the caller, leaving none pending.
    pub fn take_file_operation(&mut self) -> (op: FileOperation)
        ensures
            final(self).jump_request == old(self).jump_request,
            op == old(self).active_file_op,
            final(self).active_file_op == FileOperation::NoOperation,
            final(self).editor_text == old(self).editor_text,
            final(self).current_file == old(self).current_file,
            final(self).file_op_input == old(self).file_op_input,
    {
        let mut op = FileOperation::NoOperation;
        std::mem::swap(&mut op, &mut self.active_file_op);
        op
    }

    /// `deleted` is being deleted: when the open file lies in it, the buffer is emptied
    /// and no file stays open. Returns whether that happened.
    pub fn release_if_within(&mut self, deleted: &String) -> (released: bool)
        ensures
            final(self).jump_request == old(self).jump_request,
            released == (old(self).current_file matches Some(c) && path_starts_with(c@, deleted@)),
            released ==> final(self).editor_text@.len() == 0 && final(self).current_file is None,
            !released ==> final(self).editor_text == old(self).editor_text && final(self).current_file == old(self).current_file,
            final(self).terminal_log == old(self).terminal_log,
    {
        let inside = match &self.current_file {
            Some(c) => path_starts_with_exec(c, deleted),
            None => false,
        };
        if inside {
            self.editor_text = String::new();
            self.current_file = None;
        }
        inside
    }

    /// The dialog closed: its name field is emptied.
    pub fn finish_file_operation(&mut self)
        ensures
            final(self).jump_request == old(self).jump_request,
            final(self).file_op_input@.len() == 0,
            final(self).active_file_op == old(self).active_file_op,
            final(self).editor_text == old(self).editor_text,
    {
        self.file_op_input = String::new();
    }

    /// Whether the selection `start..end` can be sent (its preview can be cut).
    pub fn can_preview(&self, start: usize, end: usize) -> (b: bool)
        requires
            start <= end,
        ensures
            b == preview_cuttable(selection(self.editor_text@, start as int, end as int)),
    {
        let v = chars_of(self.editor_text.as_str());
        let a = if start < v.len() { start } else { v.len() };
        let b = if end < v.len() { end } else { v.len() };
        let t = one_line_of(&v, a, b);
        let total = crate::structure::char_count_at_byte(&t, 50);
        match total {
            Some(_) => true,
            None => {
                let all = byte_len_exceeds(&t, 50);
                !all
            },
        }
    }

    /// Sends the selection `start..end` to the assistant: the right panel shows the index,
    /// a request is marked as running and the log records a preview (see `ai_preview`).
    /// Returns the selected text.
    pub fn begin_ai_request(&mut self, start: usize, end: usize) -> (sel: String)
        requires
            start <= end,
            preview_cuttable(selection(old(self).editor_text@, start as int, end as int)),
        ensures
            final(self).jump_request == old(self).jump_request,
            sel@ == selection(old(self).editor_text@, start as int, end as int),
            final(self).active_right_tab == RightTab::Index,
            final(self).is_generating,
            final(self).editor_text == old(self).editor_text,
            final(self).terminal_log@ == old(self).terminal_log@ + ("[AI] 📡 Sending request to backend: \""@ + ai_preview(sel@)
                + "\""@).push('\n'),
    {
        let v = chars_of(self.editor_text.as_str());
        let a = if start < v.len() { start } else { v.len() };
        let b = if end < v.len() { end } else { v.len() };
        let sel_v = crate::text::sub_vec(&v, a, b);
        let t = one_line_of(&v, a, b);
        let preview: String = match crate::structure::char_count_at_byte(&t, 50) {
            Some(k) => {
                if byte_len_exceeds(&t, 50) {
                    let mut pv: Vec<char> = Vec::new();
                    crate::text::push_range(&mut pv, &t, 0, k);
                    push_all(&mut pv, &chars_of("..."));
                    proof {
                        let tt = one_line(sel_v@);
                        assert(tt == t@);
                        let c = choose|q: int| 0 <= q <= tt.len() && crate::structure::byte_len(#[trigger] tt.take(q)) == 50;
                        lemma_take_byte_len_unique(tt, c, k as int);
                        assert(t@.subrange(0, k as int) == t@.take(k as int));
                    }
                    string_of(&pv)
                } else {
                    string_of(&t)
                }
            },
            None => {
                proof {
                    assert(!(crate::structure::byte_len(t@) > 50));
                }
                string_of(&t)
            },
        };
        self.active_right_tab = RightTab::Index;
        self.is_generating = true;
        let msg = concat3("[AI] 📡 Sending request to backend: \"", preview.as_str(), "\"");
        self.append_log(msg.as_str());
        string_of(&sel_v)
    }

    /// A reply from the assistant arrived: the request is over. A reply starting with
    /// `Error:` is logged as a failure and shows the terminal; any other is logged as a
    /// new index entry. Returns whether the reply is to be kept in the index.
    pub fn receive_ai_reply(&mut self, summary: &str) -> (keep: bool)
        ensures
            final(self).jump_request == old(self).jump_request,
            !final(self).is_generating,
            keep == !"Error:"@.is_prefix_of(summary@),
            !keep ==> final(self).active_right_tab == RightTab::Terminal && final(self).terminal_log@
                == old(self).terminal_log@ + ("[AI] ❌ Failed: "@ + summary@).push('\n'),
            keep ==> final(self).active_right_tab == old(self).active_right_tab && final(self).terminal_log@
                == old(self).terminal_log@ + ("[AI] ✅ Generated index '"@ + summary@ + "'"@).push('\n'),
            final(self).editor_text == old(self).editor_text,
    {
        let v = chars_of(summary);
        let e = chars_of("Error:");
        let failed = crate::text::starts_with_at(&v, 0, &e);
        assert(v@.skip(0) == v@);
        if failed {
            let msg = concat3("[AI] ❌ Failed: ", summary, "");
            assert(("[AI] ❌ Failed: "@ + summary@ + ""@) == "[AI] ❌ Failed: "@ + summary@) by {
                reveal_strlit("");
            }
            self.append_log(msg.as_str());
            self.active_right_tab = RightTab::Terminal;
        } else {
            let msg = concat3("[AI] ✅ Generated index '", summary, "'");
            self.append_log(msg.as_str());
        }
        self.is_generating = false;
        !failed
    }

    /// Starts a build: the command is split into words; with none nothing happens,
    /// otherwise the log records the command and the terminal is shown. Returns the words
    /// (program, then arguments).
    pub fn build_start(&mut self, command: &str) -> (parts: Option<Vec<String>>)
        ensures
            final(self).jump_request == old(self).jump_request,
            final(self).editor_text == old(self).editor_text,
            words(command@).len() == 0 ==> parts is None && final(self).terminal_log == old(self).terminal_log
                && final(self).active_right_tab == old(self).active_right_tab,
            words(command@).len() > 0 ==> (parts matches Some(p) && crate::order::strings_view(p@) == words(command@))
                && final(self).active_right_tab == RightTab::Terminal
                && final(self).terminal_log@ == old(self).terminal_log@ + ("[BUILD] 🔄 Executing: "@ + command@).push('\n'),
    {
        let parts = split_command(command);
        if parts.len() == 0 {
            return None;
        }
        let msg = concat3("[BUILD] 🔄 Executing: ", command, "");
        assert(("[BUILD] 🔄 Executing: "@ + command@ + ""@) == "[BUILD] 🔄 Executing: "@ + command@) by {
            reveal_strlit("");
        }
        self.append_log(msg.as_str());
        self.active_right_tab = RightTab::Terminal;
        Some(parts)
    }

    /// The build ran: its outcome is logged, then its standard output and error when not
    /// empty. `status` is the exit status as written by the system.
    pub fn build_finished(&mut self, success: bool, status: &str, stdout: &str, stderr: &str)
        ensures
            final(self).jump_request == old(self).jump_request,
            final(self).editor_text == old(self).editor_text,
            final(self).terminal_log@ == old(self).terminal_log@
                + (if success { "[SUCCESS] ✅ Build Completed."@ } else { "[ERROR] ❌ Build Failed: "@ + status@ }).push('\n')
                + (if stdout@.len() > 0 { ("[STDOUT]\n"@ + stdout@).push('\n') } else { Seq::empty() })
                + (if stderr@.len() > 0 { ("[STDERR]\n"@ + stderr@).push('\n') } else { Seq::empty() }),
    {
        let ghost log0 = self.terminal_log@;
        if success {
            self.append_log("[SUCCESS] ✅ Build Completed.");
        } else {
            let msg = concat3("[ERROR] ❌ Build Failed: ", status, "");
            assert(("[ERROR] ❌ Build Failed: "@ + status@ + ""@) == "[ERROR] ❌ Build Failed: "@ + status@) by {
                reveal_strlit("");
            }
            self.append_log(msg.as_str());
        }
        let ghost log1 = self.terminal_log@;
        if !stdout.is_empty() {
            let msg = concat3("[STDOUT]\n", stdout, "");
            assert(("[STDOUT]\n"@ + stdout@ + ""@) == "[STDOUT]\n"@ + stdout@) by {
                reveal_strlit("");
            }
            self.append_log(msg.as_str());
        }
        let ghost log2 = self.terminal_log@;
        assert(log2 == log1 + (if stdout@.len() > 0 { ("[STDOUT]\n"@ + stdout@).push('\n') } else { Seq::empty() }));
        if !stderr.is_empty() {
            let msg = concat3("[STDERR]\n", stderr, "");
            assert(("[STDERR]\n"@ + stderr@ + ""@) == "[STDERR]\n"@ + stderr@) by {
                reveal_strlit("");
            }
            self.append_log(msg.as_str());
        }
    }

    /// The build command could not be started; `error` is the system's message.
    pub fn build_failed_to_start(&mut self, error: &str)
        ensures
            final(self).jump_request == old(self).jump_request,
            final(self).editor_text == old(self).editor_text,
            final(self).terminal_log@ == old(self).terminal_log@ + ("[ERROR] ❌ Pipeline failed: "@ + error@).push('\n'),
    {
        let msg = concat3("[ERROR] ❌ Pipeline failed: ", error, "");
        assert(("[ERROR] ❌ Pipeline failed: "@ + error@ + ""@) == "[ERROR] ❌ Pipeline failed: "@ + error@) by {
            reveal_strlit("");
        }
        self.append_log(msg.as_str());
    }
}

/// `v[a..b]` on one line (newlines as spaces).
fn one_line_of(v: &Vec<char>, a: usize, b: usize) -> (t: Vec<char>)
    requires
        a <= b <= v@.len(),
    ensures
        t@ == one_line(v@.subrange(a as int, b as int)),
{
    let mut t: Vec<char> = Vec::new();
    let mut i = a;
    while i < b
        invariant
            a <= i <= b <= v@.len(),
            t@ == one_line(v@.subrange(a as int, i as int)),
        decreases b - i,
    {
        let c = v[i];
        t.push(if c == '\n' { ' ' } else { c });
        assert(v@.subrange(a as int, i + 1) == v@.subrange(a as int, i as int).push(c));
        i = i + 1;
    }
    t
}

/// Whether `v` spells more than `n` bytes.
fn byte_len_exceeds(v: &Vec<char>, n: usize) -> (b: bool)
    ensures
        b == (crate::structure::byte_len(v@) > n),
{
    let mut acc: u128 = 0;
    let mut i: usize = 0;
    assert(v@.take(0) == Seq::<char>::empty());
    while i < v.len()
        invariant
            i <= v@.len(),
            acc as int == crate::structure::byte_len(v@.take(i as int)),
            acc <= 4 * i,
        decreases v@.len() - i,
    {
        assert(v@.take(i + 1).drop_last() == v@.take(i as int));
        acc = acc + crate::structure::char_width(v[i]) as u128;
        i = i + 1;
    }
    assert(v@.take(v@.len() as int) == v@);
    acc > n as u128
}

proof fn lemma_take_byte_len_unique(s: Seq<char>, i: int, j: int)
    requires
        0 <= i <= s.len(),
        0 <= j <= s.len(),
        crate::structure::byte_len(s.take(i)) == crate::structure::byte_len(s.take(j)),
    ensures
        i == j,
    decreases s.len(),
{
    if i != j {
        let lo = if i < j { i } else { j };
        let hi = if i < j { j } else { i };
        lemma_byte_len_grows(s, lo, hi);
    }
}

proof fn lemma_byte_len_grows(s: Seq<char>, i: int, j: int)
    requires
        0 <= i < j <= s.len(),
    ensures
        crate::structure::byte_len(s.take(i)) < crate::structure::byte_len(s.take(j)),
    decreases j - i,
{
    assert(s.take(j).drop_last() == s.take(j - 1));
    if i < j - 1 {
        lemma_byte_len_grows(s, i, j - 1);
    }
}

impl CCslipsApp {
    /// After an edit with the caret at `cursor`: when the caret is inside the name of a
    /// `\begin{..}` or `\end{..}` whose partner's name differs, the partner is renamed
    /// to match (see `sync_env_edits_at_char`). When the renamed part lies before the caret,
    /// returns the caret's new index.
    pub fn sync_environment(&mut self, cursor: usize) -> (moved: Option<usize>)
        requires
            crate::structure::sync_window_valid(old(self).editor_text@, cursor as int),
        ensures
            final(self).jump_request == old(self).jump_request,
            match crate::structure::spec_sync_env_edits(old(self).editor_text@, cursor as int) {
                Some((a, b, name)) => {
                    &&& final(self).editor_text@ == old(self).editor_text@.take(a) + name + old(self).editor_text@.skip(b)
                    &&& b <= cursor ==> moved == Some((cursor - (b - a) + name.len()) as usize)
                    &&& b > cursor ==> moved is None
                },
                None => final(self).editor_text == old(self).editor_text && moved is None,
            },
            final(self).current_file == old(self).current_file,
    {
        match crate::structure::sync_env_edits_at_char(self.editor_text.as_str(), cursor) {
            Some((range, name)) => {
                let v = chars_of(self.editor_text.as_str());
                let nv = chars_of(name.as_str());
                let mut out: Vec<char> = Vec::new();
                crate::text::push_range(&mut out, &v, 0, range.start);
                push_all(&mut out, &nv);
                crate::text::push_range(&mut out, &v, range.end, v.len());
                assert(v@.subrange(0, range.start as int) == v@.take(range.start as int));
                assert(v@.subrange(range.end as int, v@.len() as int) == v@.skip(range.end as int));
                assert(out@.len() == range.start + nv@.len() + (v@.len() - range.end));
                self.editor_text = string_of(&out);
                if range.end <= cursor {
                    assert(out.len() <= usize::MAX);
                    Some(cursor - (range.end - range.start) + nv.len())
                } else {
                    None
                }
            },
            None => None,
        }
    }

    /// (lines, characters, bytes) of the buffer, lines counted as `str::lines` does.
    pub fn buffer_metrics(&self) -> (r: (usize, usize, usize))
        requires
            crate::structure::byte_len(self.editor_text@) <= usize::MAX,
        ensures
            r.0 == crate::highlight::str_lines(self.editor_text@).len(),
            r.1 == self.editor_text@.len(),
            r.2 == crate::structure::byte_len(self.editor_text@),
    {
        let v = chars_of(self.editor_text.as_str());
        let lines = crate::review::count_lines(&v);
        let mut bytes: usize = 0;
        let mut i: usize = 0;
        assert(v@.take(0) == Seq::<char>::empty());
        while i < v.len()
            invariant
                i <= v@.len(),
                bytes as int == crate::structure::byte_len(v@.take(i as int)),
                bytes <= 4 * i,
                crate::structure::byte_len(v@) <= usize::MAX,
            decreases v@.len() - i,
        {
            assert(v@.take(i + 1).drop_last() == v@.take(i as int));
            proof {
                crate::structure::lemma_byte_len_prefix_le(v@, i + 1);
            }
            bytes = bytes + crate::structure::char_width(v[i]);
            i = i + 1;
        }
        assert(v@.take(v@.len() as int) == v@);
        (lines, v.len(), bytes)
    }
}

/// Why a request to the assistant failed.
#[derive(Clone, Copy, Debug, PartialEq, Eq, Structural)]
pub enum NetworkFailure {
    Timeout,
    Connect,
    Other,
}

/// The reply recorded when the assistant could not be reached: a timeout names the
/// model, a refused connection asks whether the server runs; `details` is the error as
/// the HTTP client writes it.
pub fn network_failure_reply(kind: NetworkFailure, model: &str, details: &str) -> (r: String)
    ensures
        r@ == "Error: "@ + match kind {
            NetworkFailure::Timeout => "Timeout: The "@ + model@
                + " model took longer than 300 seconds to respond. It may be too large for your hardware. Details: "@
                + details@,
            NetworkFailure::Connect => "Connection Refused: Is Ollama currently running on your machine? Details: "@
                + details@,
            NetworkFailure::Other => "Network connection failed: "@ + details@,
        },
{
    let mut v: Vec<char> = chars_of("Error: ");
    match kind {
        NetworkFailure::Timeout => {
            push_all(&mut v, &chars_of("Timeout: The "));
            push_all(&mut v, &chars_of(model));
            push_all(
                &mut v,
                &chars_of(" model took longer than 300 seconds to respond. It may be too large for your hardware. Details: "),
            );
            push_all(&mut v, &chars_of(details));
        },
        NetworkFailure::Connect => {
            push_all(&mut v, &chars_of("Connection Refused: Is Ollama currently running on your machine? Details: "));
            push_all(&mut v, &chars_of(details));
        },
        NetworkFailure::Other => {
            push_all(&mut v, &chars_of("Network connection failed: "));
            push_all(&mut v, &chars_of(details));
        },
    }
    string_of(&v)
}

/// The reply recorded when the assistant answered with an HTTP error status.
pub fn http_failure_reply(status: &str, body: &str) -> (r: String)
    ensures
        r@ == "Error: Ollama returned HTTP "@ + status@ + " - "@ + body@,
{
    let mut v: Vec<char> = chars_of("Error: Ollama returned HTTP ");
    push_all(&mut v, &chars_of(status));
    push_all(&mut v, &chars_of(" - "));
    push_all(&mut v, &chars_of(body));
    string_of(&v)
}

impl CCslipsApp {
    /// The find shortcut: shows the search panel and puts the focus in its query field.
    pub fn open_search_panel(&mut self)
        ensures
            final(self).jump_request == old(self).jump_request,
            final(self).search_state.is_active,
            final(self).search_state.focus_find,
            final(self).search_state.find_query == old(self).search_state.find_query,
            final(self).search_state.matches == old(self).search_state.matches,
            final(self).editor_text == old(self).editor_text,
    {
        self.search_state.is_active = true;
        self.search_state.focus_find = true;
    }
}

/// No path occurs twice.
pub open spec fn no_repeats(v: Seq<Seq<char>>) -> bool {
    forall|i: int, j: int| 0 <= i < j < v.len() ==> v[i] != v[j]
}

impl CCslipsApp {
    /// Ticks (`checked`) or unticks `path` in the delete dialog; nothing happens when the
    /// delete dialog is not open. The chosen paths stay free of repeats.
    pub fn select_for_deletion(&mut self, path: &String, checked: bool)
        ensures
            final(self).jump_request == old(self).jump_request,
            final(self).editor_text == old(self).editor_text,
            final(self).file_op_input == old(self).file_op_input,
            old(self).active_file_op matches FileOperation::Delete(v) ==> (final(self).active_file_op matches FileOperation::Delete(w)
                && (forall|x: Seq<char>|
                    crate::order::strings_view(w@).contains(x) <==> (crate::order::strings_view(v@).contains(x) && x != path@)
                        || (checked && x == path@))
                && (no_repeats(crate::order::strings_view(v@)) ==> no_repeats(crate::order::strings_view(w@)))),
            !(old(self).active_file_op is Delete) ==> final(self).active_file_op == old(self).active_file_op,
    {
        let mut op = FileOperation::NoOperation;
        std::mem::swap(&mut op, &mut self.active_file_op);
        match op {
            FileOperation::Delete(v) => {
                let ghost vv = crate::order::strings_view(v@);
                let mut w: Vec<String> = Vec::new();
                let mut i: usize = 0;
                while i < v.len()
                    invariant
                        i <= v@.len(),
                        vv == crate::order::strings_view(v@),
                        forall|x: Seq<char>|
                            crate::order::strings_view(w@).contains(x) <==> (vv.take(i as int).contains(x) && x != path@),
                        no_repeats(vv) ==> no_repeats(crate::order::strings_view(w@)),
                        forall|k: int| 0 <= k < w@.len() ==> (#[trigger] w@[k])@ != path@,
                    decreases v@.len() - i,
                {
                    let ghost before = crate::order::strings_view(w@);
                    let ghost pre = vv.take(i as int);
                    assert(vv.take(i + 1) == pre.push(vv[i as int]));
                    if !(v[i] == *path) {
                        w.push(v[i].clone());
                        proof {
                            let now = crate::order::strings_view(w@);
                            assert(now == before.push(vv[i as int]));
                            if no_repeats(vv) {
                                assert forall|a: int, b: int| 0 <= a < b < now.len() implies now[a] != now[b] by {
                                    if b == now.len() - 1 {
                                        assert(before.contains(now[a]));
                                        assert(pre.contains(now[a]));
                                        let q = choose|q: int| 0 <= q < pre.len() && #[trigger] pre[q] == now[a];
                                        assert(vv[q] == now[a]);
                                    }
                                }
                            }
                            assert forall|x: Seq<char>| now.contains(x) <==> (vv.take(i + 1).contains(x) && x != path@) by {
                                if now.contains(x) {
                                    let q = choose|q: int| 0 <= q < now.len() && #[trigger] now[q] == x;
                                    if q < before.len() {
                                        assert(before[q] == x);
                                        assert(before.contains(x));
                                        assert(pre.contains(x));
                                        let r = choose|r: int| 0 <= r < pre.len() && #[trigger] pre[r] == x;
                                        assert(vv.take(i + 1)[r] == x);
                                    } else {
                                        assert(x == vv[i as int]);
                                        assert(vv.take(i + 1)[i as int] == x);
                                    }
                                }
                                if vv.take(i + 1).contains(x) && x != path@ {
                                    let q = choose|q: int| 0 <= q < vv.take(i + 1).len() && #[trigger] vv.take(i + 1)[q] == x;
                                    if q < i {
                                        assert(pre[q] == x);
                                        assert(before.contains(x));
                                        let r = choose|r: int| 0 <= r < before.len() && #[trigger] before[r] == x;
                                        assert(now[r] == x);
                                    } else {
                                        assert(now[now.len() - 1] == x);
                                    }
                                }
                            }
                        }
                    } else {
                        proof {
                            assert forall|x: Seq<char>| before.contains(x) <==> (vv.take(i + 1).contains(x) && x != path@) by {
                                if vv.take(i + 1).contains(x) && x != path@ {
                                    let q = choose|q: int| 0 <= q < vv.take(i + 1).len() && #[trigger] vv.take(i + 1)[q] == x;
                                    if q < i {
                                        assert(pre[q] == x);
                                    }
                                }
                            }
                        }
                    }
                    i = i + 1;
                }
                assert(vv.take(v@.len() as int) == vv);
                if checked {
                    let ghost before = crate::order::strings_view(w@);
                    w.push(path.clone());
                    proof {
                        let now = crate::order::strings_view(w@);
                        assert(now == before.push(path@));
                        assert forall|x: Seq<char>| now.contains(x) <==> (vv.contains(x) && x != path@) || x == path@ by {
                            if now.contains(x) && x != path@ {
                                let q = choose|q: int| 0 <= q < now.len() && #[trigger] now[q] == x;
                                assert(q < before.len());
                                assert(before[q] == x);
                                assert(before.contains(x));
                                assert(vv.take(v@.len() as int).contains(x));
                            }
                            if vv.contains(x) && x != path@ {
                                assert(before.contains(x));
                                let r = choose|r: int| 0 <= r < before.len() && #[trigger] before[r] == x;
                                assert(now[r] == x);
                            }
                            if x == path@ {
                                assert(now[now.len() - 1] == x);
                            }
                        }
                        if no_repeats(vv) {
                            assert forall|a: int, b: int| 0 <= a < b < now.len() implies now[a] != now[b] by {
                                if b == now.len() - 1 {
                                    assert(before[a] == now[a]);
                                    assert(w@[a]@ != path@);
                                }
                            }
                        }
                    }
                }
                self.active_file_op = FileOperation::Delete(w);
            },
            other => {
                self.active_file_op = other;
            },
        }
    }
}

} // verus!
