use ccslips::diff::{compute_diff, DiffKind};
use ccslips::highlight::{classify_log_line, highlight_latex, highlight_latex_defined, highlight_logs, LogStyle, TokenStyle};
use ccslips::lines::{slice_chars, split_at_char_index};
use ccslips::review::{parse_ai_summary, quoted_preview, AiReview};

fn pieces(d: &[(DiffKind, String)]) -> Vec<(DiffKind, &str)> {
    d.iter().map(|(k, s)| (*k, s.as_str())).collect()
}

#[test]
fn diff_replaces_one_word() {
    let d = compute_diff("the cat sat", "the dog sat");
    assert_eq!(
        pieces(&d),
        vec![
            (DiffKind::Keep, "the "),
            (DiffKind::Delete, "cat"),
            (DiffKind::Insert, "dog"),
            (DiffKind::Keep, " sat"),
        ]
    );
}

#[test]
fn diff_of_equal_texts_keeps_everything() {
    let d = compute_diff("same text, here.", "same text, here.");
    assert_eq!(pieces(&d), vec![(DiffKind::Keep, "same text, here.")]);
}

#[test]
fn diff_from_empty_inserts() {
    let d = compute_diff("", "new words");
    assert_eq!(pieces(&d), vec![(DiffKind::Insert, "new words")]);
    let e = compute_diff("old", "");
    assert_eq!(pieces(&e), vec![(DiffKind::Delete, "old")]);
    assert!(compute_diff("", "").is_empty());
}

#[test]
fn diff_reconstructs_both_sides() {
    let old = "Thiss is a smple sentense, with erors.";
    let new = "This is a simple sentence, with errors!";
    let d = compute_diff(old, new);
    let before: String = d.iter().filter(|(k, _)| *k != DiffKind::Insert).map(|(_, s)| s.as_str()).collect();
    let after: String = d.iter().filter(|(k, _)| *k != DiffKind::Delete).map(|(_, s)| s.as_str()).collect();
    assert_eq!(before, old);
    assert_eq!(after, new);
    for w in d.windows(2) {
        assert_ne!(w[0].0, w[1].0);
    }
    assert!(d.iter().all(|(_, s)| !s.is_empty()));
    // the kept words form a longest common subsequence of the two word lists
    let kept: String = d.iter().filter(|(k, _)| *k == DiffKind::Keep).map(|(_, s)| s.as_str()).collect();
    assert_eq!(kept, " is a  , with ");
}

#[test]
fn diff_treats_unicode_letters_as_word_characters() {
    // "é" is alphanumeric, so "café" is one token and changes as a whole.
    let d = compute_diff("un café noir", "un thé noir");
    assert_eq!(
        pieces(&d),
        vec![
            (DiffKind::Keep, "un "),
            (DiffKind::Delete, "café"),
            (DiffKind::Insert, "thé"),
            (DiffKind::Keep, " noir"),
        ]
    );
}

#[test]
fn split_and_slice_by_characters() {
    let (l, r) = split_at_char_index("héllo", 2);
    assert_eq!((l.as_str(), r.as_str()), ("hé", "llo"));
    let (l, r) = split_at_char_index("héllo", 99);
    assert_eq!((l.as_str(), r.as_str()), ("héllo", ""));
    assert_eq!(slice_chars("héllo", 1, 3), "él");
    assert_eq!(slice_chars("héllo", 3, 99), "lo");
    assert_eq!(slice_chars("abc", 5, 9), "");
}

fn spans(t: &str) -> Vec<(String, TokenStyle)> {
    assert!(highlight_latex_defined(t));
    highlight_latex(t).into_iter().map(|s| (s.text, s.style)).collect()
}

#[test]
fn highlight_brackets_commands_comments() {
    assert_eq!(
        spans("ab {x}"),
        vec![
            ("ab ".to_string(), TokenStyle::Normal),
            ("{".to_string(), TokenStyle::Bracket),
            ("x".to_string(), TokenStyle::Normal),
            ("}".to_string(), TokenStyle::Bracket),
        ]
    );
    assert_eq!(
        spans("\\alpha x"),
        vec![("\\alpha".to_string(), TokenStyle::Command), (" x".to_string(), TokenStyle::Normal)]
    );
    assert_eq!(
        spans("%c\nz"),
        vec![("%c\n".to_string(), TokenStyle::Comment), ("z".to_string(), TokenStyle::Normal)]
    );
}

#[test]
fn highlight_covers_the_text() {
    let t = "\\section{Intro} Some $x^2$ and $$y$$ % note\n\\begin{verbatim}\\x\\end{verbatim} \\verb|a%b| done";
    let all: String = spans(t).into_iter().map(|(s, _)| s).collect();
    assert_eq!(all, t);
    for (s, _) in spans(t) {
        assert!(!s.is_empty());
    }
}

#[test]
fn log_lines_are_classified() {
    assert_eq!(classify_log_line("[ERROR] ❌ Save Failed"), LogStyle::Error);
    assert_eq!(classify_log_line("[SUCCESS] done"), LogStyle::Success);
    assert_eq!(classify_log_line("[SYSTEM] started"), LogStyle::Info);
    assert_eq!(classify_log_line("[AI] 📡 Sending"), LogStyle::Ai);
    assert_eq!(classify_log_line("plain"), LogStyle::Text);
    let lines = highlight_logs("[BUILD] x\r\nplain\n");
    let got: Vec<(String, LogStyle)> = lines.into_iter().map(|l| (l.text, l.style)).collect();
    assert_eq!(got, vec![("[BUILD] x".to_string(), LogStyle::Info), ("plain".to_string(), LogStyle::Text)]);
}

#[test]
fn review_splits_errors_and_improved_text() {
    let reply = "**Errors found:**\n- **Spelling**: teh\n* grammar: they was\nplain note\n\n**Improved Text:** The cat was here. ";
    match parse_ai_summary(reply) {
        AiReview::Structured { errors, improved } => {
            assert_eq!(improved, "The cat was here.");
            assert_eq!(errors.len(), 3);
            assert_eq!(errors[0].title.as_deref(), Some("Spelling"));
            assert_eq!(errors[0].detail, "teh");
            assert_eq!(errors[1].title.as_deref(), Some("grammar"));
            assert_eq!(errors[1].detail, "they was");
            assert_eq!(errors[2].title, None);
            assert_eq!(errors[2].detail, "plain note");
        }
        AiReview::Plain => panic!("expected a structured review"),
    }
}

#[test]
fn review_without_marker_is_plain() {
    assert_eq!(parse_ai_summary("- spelling: x\n---\nfixed"), AiReview::Plain);
}

#[test]
fn review_takes_text_up_to_a_second_marker() {
    match parse_ai_summary("Errors found: none\nImproved Text: first Improved Text: second") {
        AiReview::Structured { errors, improved } => {
            assert_eq!(improved, "first");
            assert_eq!(errors.len(), 1);
            assert_eq!(errors[0].title, None);
            assert_eq!(errors[0].detail, "none");
        }
        AiReview::Plain => panic!("expected a structured review"),
    }
}

#[test]
fn quoted_preview_cuts_long_passages() {
    assert_eq!(quoted_preview("short"), "\"short\"");
    let long = "a".repeat(100);
    assert_eq!(quoted_preview(&long), format!("\"{}...\"", "a".repeat(80)));
}
