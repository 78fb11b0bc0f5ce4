use tablefmt::prettify::{bare_line, postprocess, preprocess, PrettifyMeta};

fn meta_of(input: &str) -> PrettifyMeta {
    preprocess(input).1
}

fn bare_of(input: &str) -> Vec<String> {
    preprocess(input).0
}

#[test]
fn preprocess_no_indent_no_comment() {
    let m = meta_of("| a | b |\n|---|---|\n| 1 | 2 |");
    assert_eq!(m.pre_comment_spaces, 0);
    assert!(m.comment.is_none());
}

#[test]
fn preprocess_leading_spaces_uses_max() {
    let m = meta_of("  | a |\n    | b |");
    assert_eq!(m.pre_comment_spaces, 4);
}

#[test]
fn preprocess_tabs_count_as_two() {
    let m = meta_of("\t| a |");
    assert_eq!(m.pre_comment_spaces, 2);
}

#[test]
fn preprocess_mixed_indent_uses_max() {
    let m = meta_of("  | a |\n    | b |");
    assert_eq!(m.pre_comment_spaces, 4);
}

#[test]
fn preprocess_comment_hash() {
    let m = meta_of("# | row |");
    assert_eq!(m.comment.as_deref(), Some("#"));
    assert!(m.post_comment_spaces >= 1);
}

#[test]
fn preprocess_comment_double_slash() {
    let m = meta_of("// | row |");
    assert_eq!(m.comment.as_deref(), Some("//"));
}

#[test]
fn preprocess_comment_triple_slash_not_double() {
    let m = meta_of("/// | row |");
    assert_eq!(m.comment.as_deref(), Some("///"));
}

#[test]
fn preprocess_comment_star() {
    let m = meta_of("* | row |");
    assert_eq!(m.comment.as_deref(), Some("*"));
}

#[test]
fn preprocess_partial_comment_all_output_commented() {
    let m = meta_of("| a |\n# | b |");
    assert_eq!(m.comment.as_deref(), Some("#"));
}

#[test]
fn preprocess_post_comment_min_one_space_enforced_in_postprocess() {
    let m = meta_of("#| row |");
    assert_eq!(m.post_comment_spaces, 0);
    let out = postprocess("x\n", &m);
    assert!(out.starts_with("#"));
    let after_hash = &out[1..];
    assert!(after_hash.starts_with(' '));
}

#[test]
fn preprocess_indent_before_and_after_comment() {
    let m = meta_of("   #  | row |");
    assert_eq!(m.pre_comment_spaces, 3);
    assert_eq!(m.comment.as_deref(), Some("#"));
    assert_eq!(m.post_comment_spaces, 2);
}

#[test]
fn preprocess_bare_lines_strips_indent_and_comment() {
    let lines = bare_of("  # | a | b |");
    assert_eq!(lines[0], "| a | b |");
}

#[test]
fn postprocess_round_trips_prefix() {
    let m = PrettifyMeta {
        pre_comment_spaces: 2,
        comment: Some("#".to_string()),
        post_comment_spaces: 1,
    };
    let rendered = "| a | b |\n|---|---|\n| 1 | 2 |\n";
    let out = postprocess(rendered, &m);
    for line in out.lines() {
        assert!(line.starts_with("  # "), "line missing prefix: {line:?}");
    }
}

#[test]
fn postprocess_preserves_trailing_newline() {
    let m = PrettifyMeta {
        pre_comment_spaces: 0,
        comment: None,
        post_comment_spaces: 0,
    };
    let out = postprocess("a\nb\n", &m);
    assert!(out.ends_with('\n'));
}

#[test]
fn postprocess_no_trailing_newline_when_input_lacks_one() {
    let m = PrettifyMeta {
        pre_comment_spaces: 0,
        comment: None,
        post_comment_spaces: 0,
    };
    let out = postprocess("a\nb", &m);
    assert!(!out.ends_with('\n'));
}

// ── further cases ────────────────────────────────────────────────────────

#[test]
fn postprocess_exact_text() {
    let m = PrettifyMeta {
        pre_comment_spaces: 1,
        comment: Some("//".to_string()),
        post_comment_spaces: 3,
    };
    assert_eq!(postprocess("a\nb\n", &m), " //   a\n //   b\n");
}

#[test]
fn prefix_strips_back_after_postprocess() {
    for comment in [None, Some("#"), Some("//"), Some("///"), Some("*")] {
        let m = PrettifyMeta {
            pre_comment_spaces: 3,
            comment: comment.map(str::to_string),
            post_comment_spaces: 0,
        };
        let out = postprocess("| a | b |\n|---|---|", &m);
        let bare = bare_of(&out);
        assert_eq!(bare, vec!["| a | b |", "|---|---|"]);
        for line in out.lines() {
            assert!(bare_line(line).starts_with('|'));
        }
    }
}

#[test]
fn bare_line_strips_indent_and_one_marker() {
    assert_eq!(bare_line("   //  | x |"), "| x |");
    assert_eq!(bare_line("\t# # | x |"), "# | x |");
    assert_eq!(bare_line("| x |"), "| x |");
}

#[test]
fn preprocess_drops_carriage_returns() {
    let (bare, _) = preprocess("| a |\r\n| b |\r\n");
    assert_eq!(bare, vec!["| a |", "| b |"]);
}

#[test]
fn prettified_text_without_final_newline_reads_back() {
    let meta = PrettifyMeta {
        pre_comment_spaces: 2,
        comment: Some("#".to_string()),
        post_comment_spaces: 0,
    };
    let text = "| a | b |\n|---|---|\n| 1 | 2 |";
    let out = postprocess(text, &meta);
    assert!(!out.ends_with('\n'));
    let (bare, again) = preprocess(&out);
    assert_eq!(bare, text.lines().map(str::to_string).collect::<Vec<_>>());
    assert_eq!(again.pre_comment_spaces, 2);
    assert_eq!(again.comment.as_deref(), Some("#"));
    assert_eq!(again.post_comment_spaces, 1);
}
