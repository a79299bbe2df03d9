use ccslips::autocomplete::{detect_context, AutocompleteContext};
use ccslips::caches::{BibCache, CacheSource, LabelCache};
use ccslips::config::{CCslipsConfig, default_autocomplete_cmds, default_dark_theme, default_light_theme, parse_hex, try_parse_hex, AiConfig, BuildConfig, Rgba};
use ccslips::editor::{CCslipsApp, MenuKey};
use ccslips::menu::{get_file_suggestions, is_hidden_name, is_skipped_by_walk};
use ccslips::order::sort_dedup;
use ccslips::shortcuts::{AppAction, Key, KeyboardShortcut, Modifiers, ShortcutDef, ShortcutRegistry};
use ccslips::structure::find_matching_brackets;

fn ctx(t: &str) -> (u8, String) {
    match detect_context(t) {
        AutocompleteContext::Macro(p) => (0, p),
        AutocompleteContext::Citation(p) => (1, p),
        AutocompleteContext::File(p) => (2, p),
        AutocompleteContext::Label(p) => (3, p),
        AutocompleteContext::NoContext => (4, String::new()),
    }
}

#[test]
fn contexts_are_detected() {
    assert_eq!(ctx("see \\cite{knu"), (1, "knu".to_string()));
    assert_eq!(ctx("\\citep[p.~3]{a, b,  lam"), (1, "lam".to_string()));
    assert_eq!(ctx("\\ref{sec:"), (3, "sec:".to_string()));
    assert_eq!(ctx("\\includegraphics[width=1]{figs/a"), (2, "figs/a".to_string()));
    assert_eq!(ctx("text \\sec"), (0, "\\sec".to_string()));
    assert_eq!(ctx("@mi"), (0, "@mi".to_string()));
    assert_eq!(ctx("\\section{Intro}"), (4, String::new()));
    assert_eq!(ctx("plain words"), (4, String::new()));
}

#[test]
fn context_word_ends_at_the_cursor() {
    for t in ["see \\cite{a, kn", "\\ref{sec:in", "\\input{ch/", "x \\sec", "a\nb @mi", "plain"] {
        let (_, p) = ctx(t);
        assert!(t.ends_with(&p), "{t:?} reports {p:?}");
    }
    // after a line break the word of the previous line is still reported
    assert_eq!(ctx("\\sec\n"), (0, "\\sec".to_string()));
}

fn src(path: &str, modified: u128, content: Option<&str>) -> CacheSource {
    CacheSource { path: path.to_string(), modified, content: content.map(|c| c.to_string()) }
}

#[test]
fn bib_keys_are_extracted_sorted_and_cached() {
    let mut cache = BibCache::new();
    assert_eq!(cache.get_metrics(), (0, 0));
    let bib = "@article{Key1,\n title={x}}\n@STRING{ab, x}\n@Book{ key2 ,\n}\n@comment{zz,}\n@misc{Key1,}";
    let files = vec![src("refs.bib", 5, Some(bib))];
    let keys = cache.get_keys(&files);
    assert_eq!(keys, vec!["Key1", "key2"]);
    assert_eq!(cache.get_metrics(), (1, 3));
    assert!(!cache.cache.needs_update(&"refs.bib".to_string(), 5));
    assert!(cache.cache.needs_update(&"refs.bib".to_string(), 6));
    assert!(cache.cache.needs_update(&"other.bib".to_string(), 0));
    // unchanged stamp: the text given is not read again
    let again = cache.get_keys(&vec![src("refs.bib", 5, Some("@article{New,"))]);
    assert_eq!(again, vec!["Key1", "key2"]);
    // newer stamp: re-read
    let newer = cache.get_keys(&vec![src("refs.bib", 9, Some("@article{New,"))]);
    assert_eq!(newer, vec!["New"]);
    assert_eq!(cache.get_metrics(), (1, 1));
}

#[test]
fn labels_are_collected_across_files() {
    let mut cache = LabelCache::new();
    let files = vec![
        src("a.tex", 1, Some("\\label{sec:intro} text \\label{fig:a}")),
        src("b.tex", 1, Some("\\label{fig:a}\\label{}")),
        src("c.tex", 1, None),
    ];
    let labels = cache.get_labels(&files);
    assert_eq!(labels, vec!["fig:a", "sec:intro"]);
    assert_eq!(cache.get_metrics(), (2, 3));
}

#[test]
fn refreshing_keeps_files_and_counts_returned_keys() {
    let mut cache = LabelCache::new();
    let m0 = cache.get_metrics();
    let ls = cache.get_labels(&vec![src("a.tex", 1, Some("\\label{x}\\label{y}")), src("b.tex", 1, Some("\\label{x}"))]);
    let m1 = cache.get_metrics();
    assert_eq!(ls, vec!["x", "y"]);
    assert!(m1.0 >= m0.0 && m1.1 >= ls.len() && m1.0 >= 1);
    let ls2 = cache.get_labels(&vec![src("c.tex", 1, Some("\\label{z}"))]);
    assert_eq!(ls2, vec!["z"]);
    assert_eq!(cache.get_metrics(), (3, 4));
}

#[test]
fn a_path_listed_twice_returns_more_keys_than_it_tracks() {
    let mut cache = BibCache::new();
    let keys = cache.get_keys(&vec![src("a.bib", 1, Some("@x{k1,")), src("a.bib", 2, Some("@x{k2,"))]);
    assert_eq!(keys, vec!["k1", "k2"]);
    assert_eq!(cache.get_metrics(), (1, 1));
}

#[test]
fn sort_dedup_orders_by_characters() {
    let v: Vec<String> = vec!["b", "B", "a", "b", "ä", "ab"].into_iter().map(String::from).collect();
    assert_eq!(sort_dedup(&v), vec!["B", "a", "ab", "b", "ä"]);
}

#[test]
fn file_suggestions_filter_and_sort() {
    let paths: Vec<String> = vec!["figs\\Fig1.png", "main.tex", "figs/fig1.png", "notes/FIGURES.md"]
        .into_iter()
        .map(String::from)
        .collect();
    assert_eq!(get_file_suggestions(&paths, "fig"), vec!["figs/Fig1.png", "figs/fig1.png", "notes/FIGURES.md"]);
}

#[test]
fn walk_skips_hidden_and_build_folders() {
    assert!(is_hidden_name(".git"));
    assert!(!is_hidden_name("main.tex"));
    assert!(!is_hidden_name(""));
    for name in [".git", "target", "build", "out"] {
        assert!(is_skipped_by_walk(name));
    }
    for name in ["figs", "output", "builds", "Out", "main.tex"] {
        assert!(!is_skipped_by_walk(name));
    }
}

fn menu(app: &CCslipsApp) -> Vec<String> {
    app.active_menu.as_ref().map(|m| m.items.iter().map(|i| i.display.clone()).collect()).unwrap_or_default()
}

#[test]
fn citation_menu_ranks_prefix_matches_first() {
    let mut app = CCslipsApp::new();
    app.editor_text = "\\cite{kn".to_string();
    let (c, pos) = app.autocomplete_prepare(Some((8, 8)), true, true, false).unwrap();
    let keys: Vec<String> = vec!["Knuth84", "aknuth", "Lamport", "knuth84"].into_iter().map(String::from).collect();
    app.autocomplete_apply(c, pos, &keys, &Vec::new());
    assert_eq!(menu(&app), vec!["Knuth84", "knuth84", "aknuth"]);
    let m = app.active_menu.as_ref().unwrap();
    assert_eq!((m.start, m.end, m.selected), (6, 8, 0));
    assert_eq!(m.items[0].kind, "bib");
    // the same prefix at the same place needs no rebuild
    assert!(app.autocomplete_prepare(Some((8, 8)), false, true, false).is_none());
}

#[test]
fn file_menu_ranks_by_file_name() {
    let mut app = CCslipsApp::new();
    app.editor_text = "\\input{ma".to_string();
    let (c, pos) = app.autocomplete_prepare(Some((9, 9)), true, true, false).unwrap();
    let files: Vec<String> = vec!["manual/x.tex", "tex/bigmain.tex", "main.tex", "chapters/main.tex"]
        .into_iter()
        .map(String::from)
        .collect();
    app.autocomplete_apply(c, pos, &files, &Vec::new());
    assert_eq!(menu(&app), vec!["chapters/main.tex", "main.tex", "tex/bigmain.tex", "manual/x.tex"]);
    let m = app.active_menu.as_ref().unwrap();
    assert_eq!((m.start, m.end), (7, 9));
    assert_eq!(m.items[0].kind, "file");
}

#[test]
fn macro_menu_navigates_and_inserts() {
    let mut app = CCslipsApp::new();
    app.editor_text = "x \\sec".to_string();
    let cmds = default_autocomplete_cmds();
    let (c, pos) = app.autocomplete_prepare(Some((6, 6)), true, true, false).unwrap();
    app.autocomplete_apply(c, pos, &Vec::new(), &cmds);
    assert_eq!(menu(&app), vec!["\\section", "\\subsection", "\\subsubsection"]);
    assert_eq!(app.intercept_autocomplete_navigation(MenuKey::ArrowUp), (true, None));
    assert_eq!(app.active_menu.as_ref().unwrap().selected, 2);
    assert_eq!(app.intercept_autocomplete_navigation(MenuKey::ArrowDown), (true, None));
    assert_eq!(app.active_menu.as_ref().unwrap().selected, 0);
    assert!(app.can_accept());
    assert_eq!(app.intercept_autocomplete_navigation(MenuKey::Accept), (true, Some((11, 11))));
    assert_eq!(app.editor_text, "x \\section{}");
    assert!(app.active_menu.is_none());
    assert_eq!(app.intercept_autocomplete_navigation(MenuKey::Escape), (false, None));
}

#[test]
fn dismissed_macro_prefix_does_not_reopen() {
    let mut app = CCslipsApp::new();
    app.editor_text = "\\al".to_string();
    let cmds = default_autocomplete_cmds();
    let (c, pos) = app.autocomplete_prepare(Some((3, 3)), true, true, false).unwrap();
    app.autocomplete_apply(c, pos, &Vec::new(), &cmds);
    assert!(menu(&app).contains(&"\\alpha".to_string()));
    assert_eq!(app.intercept_autocomplete_navigation(MenuKey::Escape), (true, None));
    assert_eq!(app.dismissed_prefix.as_deref(), Some("\\al"));
    let (c, pos) = app.autocomplete_prepare(Some((3, 3)), true, true, false).unwrap();
    app.autocomplete_apply(c, pos, &Vec::new(), &cmds);
    assert!(app.active_menu.is_none());
    // leaving the macro forgets the dismissal
    app.editor_text = "\\al ".to_string();
    let (c, pos) = app.autocomplete_prepare(Some((4, 4)), true, true, false).unwrap();
    app.autocomplete_apply(c, pos, &Vec::new(), &cmds);
    assert!(app.dismissed_prefix.is_none());
}

#[test]
fn selection_closes_the_menu() {
    let mut app = CCslipsApp::new();
    app.editor_text = "\\sec".to_string();
    let cmds = default_autocomplete_cmds();
    let (c, pos) = app.autocomplete_prepare(Some((4, 4)), true, true, false).unwrap();
    app.autocomplete_apply(c, pos, &Vec::new(), &cmds);
    assert!(app.active_menu.is_some());
    assert!(app.autocomplete_prepare(Some((1, 4)), false, true, false).is_none());
    assert!(app.active_menu.is_none());
}

#[test]
fn template_with_cursor_marker_in_the_middle() {
    let mut app = CCslipsApp::new();
    app.editor_text = "\\int".to_string();
    let cmds = default_autocomplete_cmds();
    let (c, pos) = app.autocomplete_prepare(Some((4, 4)), true, true, false).unwrap();
    app.autocomplete_apply(c, pos, &Vec::new(), &cmds);
    let items = menu(&app);
    let k = items.iter().position(|d| d == "\\int").unwrap();
    while app.active_menu.as_ref().unwrap().selected != k {
        app.intercept_autocomplete_navigation(MenuKey::ArrowDown);
    }
    let (_, jump) = app.intercept_autocomplete_navigation(MenuKey::Accept);
    assert_eq!(app.editor_text, "\\int_{}^{}");
    assert_eq!(jump, Some((6, 6)));
}

#[test]
fn menu_has_at_most_twelve_items() {
    let mut app = CCslipsApp::new();
    app.editor_text = "\\".to_string();
    let cmds = default_autocomplete_cmds();
    let (c, pos) = app.autocomplete_prepare(Some((1, 1)), true, true, false).unwrap();
    app.autocomplete_apply(c, pos, &Vec::new(), &cmds);
    assert_eq!(menu(&app).len(), 12);
}

#[test]
fn hex_colours() {
    assert_eq!(parse_hex("#FF8800"), Rgba { r: 255, g: 136, b: 0, a: 255 });
    assert_eq!(parse_hex("#00000080"), Rgba { r: 0, g: 0, b: 0, a: 128 });
    assert_eq!(parse_hex("##112233"), Rgba { r: 0x11, g: 0x22, b: 0x33, a: 255 });
    assert_eq!(parse_hex("+12345"), Rgba { r: 255, g: 0, b: 255, a: 255 });
    assert_eq!(try_parse_hex("#+12345"), None);
    assert_eq!(try_parse_hex("#+1234567"), None);
    assert_eq!(try_parse_hex("#FFF"), None);
    assert_eq!(parse_hex("#12345"), Rgba { r: 255, g: 0, b: 255, a: 255 });
    assert_eq!(try_parse_hex("#GG0000"), None);
    assert_eq!(try_parse_hex("#-12345"), None);
    assert_eq!(try_parse_hex("#ééé"), None);
    assert_eq!(try_parse_hex("#abcdef"), Some(Rgba { r: 0xab, g: 0xcd, b: 0xef, a: 255 }));
}

#[test]
fn default_settings() {
    let dark = default_dark_theme();
    assert_eq!(dark.ui.bg_color, "#1E1E1E");
    assert_eq!(dark.search.current_match_bg, "#FFA50096");
    let light = default_light_theme();
    assert_eq!(light.syntax.command, "#005CC5");
    assert_eq!(parse_hex(&light.ui.editor_selection_bg), Rgba { r: 0x00, g: 0x3E, b: 0x8A, a: 0x88 });
    let ai = AiConfig::default_settings();
    assert_eq!(ai.model, "qwen3:0.6b");
    assert!(ai.system_prompt.starts_with("Act as an expert linguistic editor."));
    let b = BuildConfig::default_in("/w".to_string());
    assert_eq!((b.command.as_str(), b.working_directory.as_str(), b.auto_save_before_build), ("make", "/w", true));
    let cmds = default_autocomplete_cmds();
    assert_eq!(cmds.len(), 152);
    assert_eq!(cmds[0].trigger, "\\documentclass");
    assert_eq!(cmds[0].insert, "\\documentclass{$CURSOR$}");
    assert_eq!(cmds.last().unwrap().trigger, "@misc");
}

#[test]
fn shortcuts_are_bound_and_shown() {
    let reg = ShortcutRegistry::new();
    assert_eq!(reg.global[0].display_string(), "Ctrl/Cmd + S");
    assert_eq!(reg.global[3].display_string(), "Ctrl/Cmd + Plus");
    assert_eq!(reg.editor[1].display_string(), "Alt + V");
    assert_eq!(reg.editor[2].display_string(), "Escape");
    let both = ShortcutDef {
        trigger: KeyboardShortcut { modifiers: Modifiers { command: true, alt: true, shift: false }, logical_key: Key::V },
        secondary_trigger: None,
        action: AppAction::ToggleVerticalEdit,
        help: String::new(),
    };
    assert_eq!(both.display_string(), "Ctrl/Cmd + Alt + V");
    let (t, second) = reg.triggers_for(AppAction::ZoomIn).unwrap();
    assert_eq!(t.logical_key, Key::Plus);
    assert_eq!(second.unwrap().logical_key, Key::Equals);
    assert_eq!(reg.triggers_for(AppAction::AbortOrClose).unwrap().0.logical_key, Key::Escape);
}

#[test]
fn bracket_pairs() {
    assert_eq!(find_matching_brackets("(a[b])", 0), Some((0, 5)));
    assert_eq!(find_matching_brackets("(a[b])", 3), Some((2, 4)));
    assert_eq!(find_matching_brackets("(a[b])", 6), Some((0, 5)));
    assert_eq!(find_matching_brackets("abc", 1), None);
    assert_eq!(find_matching_brackets("", 0), None);
    assert_eq!(find_matching_brackets("((x)", 0), None);
}

#[test]
fn whole_default_settings() {
    let c = CCslipsConfig::default_in("/work".to_string());
    assert_eq!(c.build.command, "make");
    assert_eq!(c.build.working_directory, "/work");
    assert!(c.build.auto_save_before_build);
    assert_eq!(c.editor.bib_dir, "bib/");
    assert!(c.editor.last_opened_file.is_none());
    assert!(c.ui.dark_mode);
    assert_eq!(c.ui.dark_theme.ui.bg_color, "#1E1E1E");
    assert_eq!(c.ai.model, "qwen3:0.6b");
    let cmds = &c.editor.autocomplete_cmds;
    assert!(cmds.iter().any(|e| e.trigger == "\\textbf" && e.insert == "\\textbf{$CURSOR$}"));
    assert!(!cmds.iter().any(|e| e.trigger == "textbf"));
}
