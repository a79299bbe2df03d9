use ccslips::editor::{
    http_failure_reply, network_failure_reply, split_command, CCslipsApp, FileOperation, NetworkFailure, RightTab,
    TreeAction, VerticalEvent,
};
use ccslips::search::{sort_by_path, SearchResult, SearchState};
use ccslips::structure::get_sync_env_edits;
use ccslips::vertical::VerticalCursor;

fn app_with(text: &str, file: Option<&str>) -> CCslipsApp {
    let mut app = CCslipsApp::new();
    app.editor_text = text.to_string();
    app.current_file = file.map(|f| f.to_string());
    app
}

fn starts(app: &CCslipsApp) -> Vec<(usize, usize)> {
    app.search_state.matches.iter().map(|m| (m.start, m.end)).collect()
}

#[test]
fn search_finds_non_overlapping_matches_in_characters() {
    let mut app = app_with("aaaa é aa", Some("main.tex"));
    app.search_state.find_query = "aa".to_string();
    app.perform_search(&Vec::new(), false, false);
    assert_eq!(starts(&app), vec![(0, 2), (2, 4), (7, 9)]);
    assert!(app.search_state.matches.iter().all(|m| m.file == "main.tex"));
    assert_eq!(app.search_state.current_match_idx, 0);
    assert!(!app.search_state.query_modified);
}

#[test]
fn empty_query_finds_nothing() {
    let mut app = app_with("text", None);
    app.perform_search(&Vec::new(), false, true);
    assert!(app.search_state.matches.is_empty());
    assert_eq!(app.jump_request, None);
}

#[test]
fn search_keeps_the_nearest_match() {
    let mut app = app_with("x..x..x..x", Some("a.tex"));
    app.search_state.find_query = "x".to_string();
    app.perform_search(&Vec::new(), false, false);
    app.search_state.current_match_idx = 2; // the match at 6
    app.editor_text = "yyx..x..x..x".to_string();
    app.perform_search(&Vec::new(), true, true);
    // matches now at 2, 5, 8, 11: the nearest to 6 is 5
    assert_eq!(app.search_state.current_match_idx, 1);
    assert_eq!(app.jump_request, Some((5, 6)));
}

#[test]
fn search_all_files_uses_the_buffer_for_the_open_file() {
    let mut app = app_with("cat in buffer", Some("b.tex"));
    app.search_state.find_query = "cat".to_string();
    app.search_state.search_all_files = true;
    let listing = vec![
        ("a.tex".to_string(), "a cat".to_string()),
        (".git/x".to_string(), "cat".to_string()),
        ("b.tex".to_string(), "no match on disk".to_string()),
    ];
    app.perform_search(&listing, false, false);
    let found: Vec<(String, usize)> = app.search_state.matches.iter().map(|m| (m.file.clone(), m.start)).collect();
    assert_eq!(found, vec![("a.tex".to_string(), 2), ("b.tex".to_string(), 0)]);
}

#[test]
fn safe_advance_replace_cat_with_caterpillar() {
    let mut app = app_with("cat cat", Some("f.tex"));
    app.search_state.find_query = "cat".to_string();
    app.search_state.replace_query = "caterpillar".to_string();
    app.perform_search(&Vec::new(), false, true);
    assert_eq!(app.jump_request, Some((0, 3)));
    let next = app.replace_current_match(&Vec::new());
    assert_eq!(app.editor_text, "caterpillar cat");
    assert_eq!(next.map(|m| m.start), Some(12));
    assert_eq!(app.search_state.current_match_idx, 1);
    assert_eq!(app.jump_request, Some((12, 15)));
    let next = app.replace_current_match(&Vec::new());
    assert_eq!(app.editor_text, "caterpillar caterpillar");
    assert!(next.is_none());
    assert!(app.search_state.has_reached_end);
    assert_eq!(app.jump_request, Some((23, 23)));
    // once the end is reached, replacing does nothing
    assert!(app.replace_current_match(&Vec::new()).is_none());
    assert_eq!(app.editor_text, "caterpillar caterpillar");
}

#[test]
fn safe_advance_skips_every_match_inside_the_replacement() {
    let mut app = app_with("cat", Some("f.tex"));
    app.search_state.find_query = "cat".to_string();
    app.search_state.replace_query = "catcat".to_string();
    app.perform_search(&Vec::new(), false, true);
    let next = app.replace_current_match(&Vec::new());
    assert_eq!(app.editor_text, "catcat");
    assert!(next.is_none());
    assert!(app.search_state.has_reached_end);
    assert_eq!(app.jump_request, Some((6, 6)));

    let mut app = app_with("cat x cat", Some("f.tex"));
    app.search_state.find_query = "cat".to_string();
    app.search_state.replace_query = "catcat".to_string();
    app.perform_search(&Vec::new(), false, true);
    let next = app.replace_current_match(&Vec::new());
    assert_eq!(app.editor_text, "catcat x cat");
    assert_eq!(next.map(|m| (m.start, m.end)), Some((9, 12)));
    assert_eq!(app.search_state.current_match_idx, 2);
}

#[test]
fn editing_the_query_locks_replacing() {
    let mut app = app_with("one two one", None);
    app.search_state.find_query = "one".to_string();
    app.search_state.replace_query = "1".to_string();
    app.perform_search(&Vec::new(), false, false);
    assert!(app.search_state.can_replace());
    app.search_state.find_query = "two".to_string();
    app.search_state.on_query_edited();
    assert!(!app.search_state.can_replace());
    assert!(!app.search_state.can_replace_all());
    assert!(app.replace_current_match(&Vec::new()).is_none());
    assert!(app.replace_all_matches(&Vec::new()).is_empty());
    assert_eq!(app.editor_text, "one two one");
}

#[test]
fn replace_all_in_buffer() {
    let mut app = app_with("one two one", None);
    app.search_state.find_query = "one".to_string();
    app.search_state.replace_query = "three".to_string();
    let writes = app.replace_all_matches(&Vec::new());
    assert!(writes.is_empty());
    assert_eq!(app.editor_text, "three two three");
    assert!(app.search_state.matches.is_empty());
}

#[test]
fn replace_all_with_itself_changes_nothing() {
    let mut app = app_with("abab ab", None);
    app.search_state.find_query = "ab".to_string();
    app.search_state.replace_query = "ab".to_string();
    app.replace_all_matches(&Vec::new());
    assert_eq!(app.editor_text, "abab ab");
    assert_eq!(app.search_state.matches.len(), 3);
}

#[test]
fn replace_all_files_returns_writes() {
    let mut app = app_with("x one", Some("b.tex"));
    app.search_state.find_query = "one".to_string();
    app.search_state.replace_query = "1".to_string();
    app.search_state.search_all_files = true;
    let listing = vec![
        ("a.tex".to_string(), "no".to_string()),
        ("b.tex".to_string(), "x one".to_string()),
        (".git/c".to_string(), "one".to_string()),
        ("d.tex".to_string(), "one one".to_string()),
    ];
    let writes = app.replace_all_matches(&listing);
    assert_eq!(
        writes,
        vec![("b.tex".to_string(), "x 1".to_string()), ("d.tex".to_string(), "1 1".to_string())]
    );
    assert_eq!(app.editor_text, "x 1");
    assert!(app.search_state.matches.is_empty());
}

#[test]
fn navigation_wraps_and_undoes() {
    let mut s = SearchState::default();
    s.matches = vec![
        SearchResult { file: String::new(), start: 0, end: 1 },
        SearchResult { file: String::new(), start: 2, end: 3 },
        SearchResult { file: String::new(), start: 4, end: 5 },
    ];
    s.current_match_idx = 2;
    s.next_match();
    assert_eq!(s.current_match_idx, 0);
    s.prev_match();
    assert_eq!(s.current_match_idx, 2);
    s.has_reached_end = true;
    s.prev_match();
    assert_eq!(s.current_match_idx, 1);
    assert!(!s.has_reached_end);
}

#[test]
fn jump_clamps_the_current_index() {
    let mut app = app_with("", Some("a"));
    app.search_state.matches = vec![SearchResult { file: "b".to_string(), start: 3, end: 5 }];
    app.search_state.current_match_idx = 7;
    let t = app.jump_to_current_match().unwrap();
    assert_eq!(t.file, "b");
    assert_eq!(app.search_state.current_match_idx, 0);
    assert_eq!(app.jump_request, Some((3, 5)));
}

#[test]
fn line_and_column_conversions() {
    let app = app_with("ab\ncd\n", None);
    assert_eq!(app.char_index_to_line_col(0), (0, 0));
    assert_eq!(app.char_index_to_line_col(2), (0, 2));
    assert_eq!(app.char_index_to_line_col(3), (1, 0));
    assert_eq!(app.char_index_to_line_col(6), (2, 0));
    assert_eq!(app.char_index_to_line_col(7), (0, 0));
    assert_eq!(app.line_col_to_char_index(1, 1), 4);
    assert_eq!(app.line_col_to_char_index(1, 9), 5);
    assert_eq!(app.line_col_to_char_index(9, 0), 7);
    for i in 0..=6 {
        let (l, c) = app.char_index_to_line_col(i);
        assert_eq!(app.line_col_to_char_index(l, c), i);
    }
    assert_eq!(app.line_count(), 3);
}

#[test]
fn vertical_insert_then_backspace_restores() {
    let mut app = app_with("abc\nd\nghi", None);
    let vc = VerticalCursor { anchor_line: 1, active_line: 0, col: 2 };
    let col = app.apply_vertical_insert_text(&vc, "X");
    assert_eq!(col, 3);
    assert_eq!(app.editor_text, "abXc\ndX\nghi");
    let vc2 = VerticalCursor { col: 3, ..vc };
    assert_eq!(app.apply_vertical_backspace(&vc2), 2);
    assert_eq!(app.editor_text, "abc\nd\nghi");
    let vc0 = VerticalCursor { anchor_line: 0, active_line: 2, col: 0 };
    assert_eq!(app.apply_vertical_backspace(&vc0), 0);
    assert_eq!(app.editor_text, "abc\nd\nghi");
}

#[test]
fn vertical_edit_events() {
    let mut app = app_with("ab\ncd\nef", None);
    assert!(app.toggle_vertical_edit(Some(4)));
    let mut vc = app.vertical_cursor.unwrap();
    assert_eq!((vc.anchor_line, vc.active_line, vc.col), (1, 1, 1));
    let total = app.line_count();
    let step = app.vertical_edit_event(&mut vc, &VerticalEvent::ArrowDown, total);
    assert!(step.consumed && step.moved && !step.changed);
    app.vertical_edit_event(&mut vc, &VerticalEvent::ArrowDown, total);
    assert_eq!(vc.active_line, 2);
    app.vertical_edit_event(&mut vc, &VerticalEvent::Text("-".to_string(), false), total);
    assert_eq!(app.editor_text, "ab\nc-d\ne-f");
    assert_eq!(vc.col, 2);
    let alt_tab = app.vertical_edit_event(&mut vc, &VerticalEvent::Text("\t".to_string(), true), total);
    assert!(!alt_tab.consumed);
    let esc = app.vertical_edit_event(&mut vc, &VerticalEvent::Escape, total);
    assert!(esc.clear && esc.consumed);
    assert_eq!(app.finish_vertical_edit(vc, true, true), None);
    assert!(app.vertical_cursor.is_none());
    assert!(app.terminal_log.ends_with("[SYSTEM] Vertical edit mode deactivated.\n"));
}

#[test]
fn finishing_vertical_edit_clamps_lines() {
    let mut app = app_with("a\nb", None);
    let vc = VerticalCursor { anchor_line: 5, active_line: 1, col: 9 };
    let idx = app.finish_vertical_edit(vc, false, true);
    assert_eq!(idx, Some(3));
    assert_eq!(app.vertical_cursor, Some(VerticalCursor { anchor_line: 1, active_line: 1, col: 9 }));
    assert!(app.scroll_to_vc);
}

#[test]
fn log_and_buffer_lifecycle() {
    let mut app = CCslipsApp::new();
    assert_eq!(app.terminal_log, "[SYSTEM] Charcoal Slips Editor Initialized.\n");
    app.append_log("hello");
    assert!(app.terminal_log.ends_with("hello\n"));
    assert!(app.needs_open(&"a.tex".to_string()));
    app.load_buffer("a.tex".to_string(), "text".to_string());
    assert!(!app.needs_open(&"a.tex".to_string()));
    assert!(app.close_buffer());
    assert_eq!(app.editor_text, "");
    assert!(app.current_file.is_none());
    assert!(!app.close_buffer());
}

#[test]
fn tree_actions_and_file_operations() {
    let mut app = app_with("body", Some("proj/sub/file.tex"));
    assert_eq!(app.apply_tree_action(TreeAction::OpenFile("x.tex".to_string())), Some("x.tex".to_string()));
    app.file_op_input = "typed".to_string();
    assert_eq!(app.apply_tree_action(TreeAction::CreateDir("proj".to_string())), None);
    assert_eq!(app.active_file_op, FileOperation::CreateDir("proj".to_string()));
    assert_eq!(app.file_op_input, "");
    let op = app.take_file_operation();
    assert_eq!(op, FileOperation::CreateDir("proj".to_string()));
    assert_eq!(app.active_file_op, FileOperation::NoOperation);
    assert!(!app.release_if_within(&"proj/su".to_string()));
    assert!(!app.release_if_within(&"other".to_string()));
    assert!(app.release_if_within(&"proj/sub/".to_string()));
    assert_eq!(app.editor_text, "");
    assert!(app.current_file.is_none());
}

#[test]
fn escape_closes_popup_before_search() {
    let mut app = app_with("\\sec", None);
    app.search_state.is_active = true;
    app.search_state.find_query = "x".to_string();
    let cmds = ccslips::config::default_autocomplete_cmds();
    let ctx = app.autocomplete_prepare(Some((4, 4)), true, true, false).unwrap();
    app.autocomplete_apply(ctx.0, ctx.1, &Vec::new(), &cmds);
    assert!(app.active_menu.is_some());
    assert!(app.abort_or_close());
    assert!(app.active_menu.is_none());
    assert_eq!(app.dismissed_prefix.as_deref(), Some("\\sec"));
    assert!(app.search_state.is_active);
    assert!(app.abort_or_close());
    assert!(!app.search_state.is_active);
    assert!(!app.abort_or_close());
}

#[test]
fn ai_request_and_replies() {
    let mut app = app_with("line one\nline two", Some("a.tex"));
    assert!(app.can_preview(5, 13));
    let sel = app.begin_ai_request(5, 13);
    assert_eq!(sel, "one\nline");
    assert!(app.is_generating);
    assert_eq!(app.active_right_tab, RightTab::Index);
    assert!(app.terminal_log.ends_with("[AI] 📡 Sending request to backend: \"one line\"\n"));
    assert!(!app.receive_ai_reply("Error: offline"));
    assert_eq!(app.active_right_tab, RightTab::Terminal);
    assert!(app.terminal_log.ends_with("[AI] ❌ Failed: Error: offline\n"));
    assert!(app.receive_ai_reply("- x: y"));
    assert!(app.terminal_log.ends_with("[AI] ✅ Generated index '- x: y'\n"));
    assert!(!app.is_generating);
}

#[test]
fn ai_preview_is_cut_at_fifty_bytes() {
    let text = "b".repeat(60);
    let mut app = app_with(&text, Some("a.tex"));
    app.begin_ai_request(0, 60);
    let expected = format!("[AI] 📡 Sending request to backend: \"{}...\"\n", "b".repeat(50));
    assert!(app.terminal_log.ends_with(&expected));
    let mut multi = app_with(&"é".repeat(30), Some("a.tex"));
    // 25 characters of two bytes end exactly at byte 50
    assert!(multi.can_preview(0, 30));
    let odd = app_with(&format!("a{}", "é".repeat(30)), Some("a.tex"));
    assert!(!odd.can_preview(0, 31));
    multi.begin_ai_request(0, 30);
    assert!(multi.terminal_log.ends_with(&format!("\"{}...\"\n", "é".repeat(25))));
}

#[test]
fn build_steps_are_logged() {
    assert_eq!(split_command("  make  -j4\tall "), vec!["make", "-j4", "all"]);
    assert!(split_command(" \t ").is_empty());
    let mut app = CCslipsApp::new();
    assert!(app.build_start("   ").is_none());
    let parts = app.build_start("make pdf").unwrap();
    assert_eq!(parts, vec!["make", "pdf"]);
    assert_eq!(app.active_right_tab, RightTab::Terminal);
    app.build_finished(false, "exit status: 2", "out", "");
    assert!(app.terminal_log.ends_with("[BUILD] 🔄 Executing: make pdf\n[ERROR] ❌ Build Failed: exit status: 2\n[STDOUT]\nout\n"));
    app.build_failed_to_start("not found");
    assert!(app.terminal_log.ends_with("[ERROR] ❌ Pipeline failed: not found\n"));
}

#[test]
fn environment_names_follow_their_partner() {
    let mut app = app_with("\\begin{itemize}\n\\end{enumerate}", None);
    assert!(ccslips::structure::sync_window_is_valid(&app.editor_text, 8));
    let moved = app.sync_environment(8);
    assert_eq!(app.editor_text, "\\begin{itemize}\n\\end{itemize}");
    assert_eq!(moved, None);
    let mut back = app_with("\\begin{figure}\n\\end{table}", None);
    let moved = back.sync_environment(25);
    assert_eq!(back.editor_text, "\\begin{table}\n\\end{table}");
    assert_eq!(moved, Some(24));
}

#[test]
fn buffer_metrics_count_lines_chars_bytes() {
    let app = app_with("é\nb\n", None);
    assert_eq!(app.buffer_metrics(), (2, 4, 5));
}

#[test]
fn failure_replies_of_the_assistant() {
    assert_eq!(
        network_failure_reply(NetworkFailure::Timeout, "qwen3", "t/o"),
        "Error: Timeout: The qwen3 model took longer than 300 seconds to respond. It may be too large for your hardware. Details: t/o"
    );
    assert_eq!(
        network_failure_reply(NetworkFailure::Connect, "m", "refused"),
        "Error: Connection Refused: Is Ollama currently running on your machine? Details: refused"
    );
    assert_eq!(network_failure_reply(NetworkFailure::Other, "m", "dns"), "Error: Network connection failed: dns");
    assert_eq!(http_failure_reply("500 Internal Server Error", "boom"), "Error: Ollama returned HTTP 500 Internal Server Error - boom");
    let mut app = CCslipsApp::new();
    assert!(!app.receive_ai_reply(&http_failure_reply("404", "")));
}

#[test]
fn find_shortcut_opens_the_panel() {
    let mut app = CCslipsApp::new();
    app.open_search_panel();
    assert!(app.search_state.is_active);
    assert!(app.search_state.focus_find);
}

#[test]
fn delete_selection_toggles_without_repeats() {
    let mut app = CCslipsApp::new();
    app.select_for_deletion(&"a".to_string(), true);
    assert_eq!(app.active_file_op, FileOperation::NoOperation);
    app.apply_tree_action(TreeAction::Delete(vec!["a".to_string()]));
    app.select_for_deletion(&"b".to_string(), true);
    app.select_for_deletion(&"a".to_string(), true);
    assert_eq!(app.active_file_op, FileOperation::Delete(vec!["b".to_string(), "a".to_string()]));
    app.select_for_deletion(&"b".to_string(), false);
    assert_eq!(app.active_file_op, FileOperation::Delete(vec!["a".to_string()]));
}

#[test]
fn vertical_backspaces_undo_an_insertion() {
    let mut app = app_with("ab\ncd\nef", None);
    let vc = VerticalCursor { anchor_line: 0, active_line: 1, col: 1 };
    let mut col = app.apply_vertical_insert_text(&vc, "XY");
    assert_eq!(app.editor_text, "aXYb\ncXYd\nef");
    assert_eq!(col, 3);
    for _ in 0..2 {
        col = app.apply_vertical_backspace(&VerticalCursor { col, ..vc });
    }
    assert_eq!(app.editor_text, "ab\ncd\nef");
    assert_eq!(col, 1);
}

#[test]
fn listing_is_ordered_by_path_components() {
    let listing: Vec<(String, String)> = vec!["b/a.tex", "a.tex", "a/b.tex", "a b.tex"]
        .into_iter()
        .map(|p| (p.to_string(), format!("text of {p}")))
        .collect();
    let sorted = sort_by_path(&listing);
    let paths: Vec<&str> = sorted.iter().map(|e| e.0.as_str()).collect();
    assert_eq!(paths, vec!["a/b.tex", "a b.tex", "a.tex", "b/a.tex"]);
    assert!(sorted.iter().all(|(p, t)| *t == format!("text of {p}")));
}

#[test]
fn search_all_files_orders_matches_by_path() {
    let mut app = app_with("", None);
    app.search_state.find_query = "cat".to_string();
    app.search_state.search_all_files = true;
    let listing = vec![
        ("b.tex".to_string(), "cat cat".to_string()),
        ("a/x.tex".to_string(), "a cat".to_string()),
        ("a b.tex".to_string(), "cat".to_string()),
    ];
    app.perform_search(&listing, false, false);
    let found: Vec<(String, usize)> = app.search_state.matches.iter().map(|m| (m.file.clone(), m.start)).collect();
    assert_eq!(
        found,
        vec![
            ("a/x.tex".to_string(), 2),
            ("a b.tex".to_string(), 0),
            ("b.tex".to_string(), 0),
            ("b.tex".to_string(), 4),
        ]
    );
}

#[test]
fn sync_edit_positions_are_bytes() {
    // "é" takes two bytes: the caret after "abc" is at byte 12, the partner name at 18..20
    let t = "é\\begin{abc}\\end{ab}";
    let (range, name) = get_sync_env_edits(t, 12).unwrap();
    assert_eq!((range.start, range.end), (18, 20));
    assert_eq!(&t[range.clone()], "ab");
    assert_eq!(name, "abc");
    assert!(get_sync_env_edits("\\begin{x}\\end{x}", 8).is_none());
}

#[test]
fn applying_the_sync_edit_leaves_nothing_to_sync() {
    for (text, cursor) in [("\\begin{itemize}\n\\end{enumerate}", 8usize), ("\\begin{figure}\n\\end{table}", 25)] {
        let (range, name) = get_sync_env_edits(text, cursor).unwrap();
        assert_ne!(&text[range.clone()], name);
        let mut t2 = text.to_string();
        t2.replace_range(range.clone(), &name);
        let c2 = if range.end <= cursor { cursor - range.len() + name.len() } else { cursor };
        assert!(get_sync_env_edits(&t2, c2).is_none());
    }
}
