use cyth_cgi::template::{page_parsable, parse_script};

fn parse(page: &str) -> (String, Vec<String>, Vec<(i32, i32)>) {
    assert!(page_parsable(page.as_bytes()));
    let (source, text, mapping) = parse_script(page.as_bytes());
    (
        String::from_utf8(source).unwrap(),
        text.into_iter().map(|t| String::from_utf8(t).unwrap()).collect(),
        mapping,
    )
}

#[test]
fn page_with_one_code_block() {
    let (source, text, mapping) = parse("<html>\n<? print(\"hi\") ?>\n</html>");
    assert_eq!(source, "printInternal(0)\nprint(\"hi\") \nprintInternal(1)\n");
    assert_eq!(text, vec!["<html>\n".to_string(), "\n</html>".to_string()]);
    assert_eq!(mapping, vec![(1, 0), (2, 3), (2, 17), (3, 7)]);
}

#[test]
fn code_is_dedented_and_blank_lines_dropped() {
    let (source, text, mapping) = parse("<?\n    a\n\n      b\n?>");
    assert_eq!(source, "a\n  b\n");
    assert!(text.is_empty());
    assert_eq!(mapping, vec![(2, 4), (4, 4), (5, 2)]);
}

#[test]
fn text_only_page() {
    let (source, text, mapping) = parse("abc");
    assert_eq!(source, "printInternal(0)\n");
    assert_eq!(text, vec!["abc".to_string()]);
    assert_eq!(mapping, vec![(1, 0), (1, 3)]);
}

#[test]
fn empty_page() {
    let (source, text, mapping) = parse("");
    assert_eq!(source, "");
    assert!(text.is_empty());
    assert_eq!(mapping, vec![(1, 0)]);
}

#[test]
fn unclosed_code_runs_to_the_end() {
    let (source, text, mapping) = parse("x<?  y");
    assert_eq!(source, "printInternal(0)\ny\n");
    assert_eq!(text, vec!["x".to_string()]);
    assert_eq!(mapping, vec![(1, 0), (1, 5), (1, 6)]);
}

#[test]
fn carriage_returns_before_line_feeds_are_dropped() {
    let (source, _, mapping) = parse("<?\r\n  x\r\n?>");
    assert_eq!(source, "x\n");
    assert_eq!(mapping, vec![(2, 2), (3, 2)]);
}

#[test]
fn unicode_white_space_counts_as_indentation() {
    let (source, _, mapping) = parse("<?\n\u{3000}x\n\u{3000}\u{3000}y\n?>");
    assert_eq!(source, "x\n\u{3000}y\n");
    assert_eq!(mapping[0], (2, 3));
    assert_eq!(mapping[1], (3, 3));
}

#[test]
fn many_text_chunks_are_numbered_in_order() {
    let (source, text, _) = parse("a<?x?>b<?y?>c<?z?>d<?w?>e<?v?>f<?u?>g<?t?>h<?s?>i<?r?>j<?q?>k");
    assert_eq!(text.len(), 11);
    assert!(source.contains("printInternal(10)\n"));
    assert_eq!(text[10], "k");
}

#[test]
fn adjacent_tags_leave_no_empty_chunk() {
    let (source, text, _) = parse("<?a?><?b?>");
    assert_eq!(source, "a\nb\n");
    assert!(text.is_empty());
}

#[test]
fn open_tag_before_close_is_refused() {
    assert!(!page_parsable(b"text <?> more"));
    assert!(page_parsable(b"<? code <?> ?>"));
    assert!(page_parsable(b"<?"));
}

#[test]
fn indentation_cut_inside_a_character_is_refused() {
    assert!(!page_parsable("<?\n  a\n\u{3000}b\n?>".as_bytes()));
    assert!(!page_parsable("<?\n  a\n\u{3000}b".as_bytes()));
    assert!(page_parsable("<?\n\u{3000}a\n\u{3000}b\n?>".as_bytes()));
    assert!(page_parsable("<?\n   a\n  \n\u{3000}b?>".as_bytes()));
    assert!(page_parsable("\u{3000}a\n  b".as_bytes()));
}

#[test]
fn source_lines_match_mapping_on_samples() {
    for page in [
        "<html>\n<? print(\"hi\") ?>\n</html>",
        "<?\n  a\n\n  b\n?>tail\n",
        "a\nb\nc",
        "<?x\r\ny?>\r\n<? z ?>",
    ] {
        let (source, _, mapping) = parse(page);
        assert_eq!(source.lines().count() + 1, mapping.len());
    }
}

#[test]
fn readme_example_page() {
    let page = "<!DOCTYPE html>\n<html>\n    <head>\n        <title>Example</title>\n    </head>\n    <body>\n        <?\n            print(\"Hi, I'm a Cyth script!\")\n        ?>\n    </body>\n</html>\n";
    let (source, text, mapping) = parse(page);
    assert_eq!(source, "printInternal(0)\nprint(\"Hi, I'm a Cyth script!\")\nprintInternal(1)\n");
    assert_eq!(
        text,
        vec![
            "<!DOCTYPE html>\n<html>\n    <head>\n        <title>Example</title>\n    </head>\n    <body>\n        ".to_string(),
            "\n    </body>\n</html>\n".to_string(),
        ]
    );
    assert_eq!(mapping, vec![(1, 0), (8, 12), (9, 10), (12, 0)]);
}

#[test]
fn texts_are_the_page_outside_code_on_samples() {
    for (page, outside) in [
        ("a<?x?>b<?y", "ab"),
        ("<?x?>", ""),
        ("head <? if x\n    print(1) ?> tail\n", "head  tail\n"),
        ("no code at all", "no code at all"),
        ("<?a?><?b?>c", "c"),
    ] {
        let (_, text, _) = parse(page);
        assert_eq!(text.concat(), outside);
    }
}
