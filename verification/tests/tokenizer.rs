use jamf::component::HTMLComponent;
use jamf::document::MDFile;

fn tokens(text: &str) -> Vec<HTMLComponent> {
    let document = MDFile { contents: text.to_string(), path: String::from("notes.jamf") };
    document.get_html_components_iter().unwrap()
}

fn content(text: &str) -> HTMLComponent {
    HTMLComponent::Content(text.to_string())
}

#[test]
fn plain_text_is_one_content_and_one_line_break() {
    assert_eq!(tokens("hello world"), vec![content("hello world"), HTMLComponent::NewLine]);
}

#[test]
fn empty_document_is_empty_content_and_line_break() {
    assert_eq!(tokens(""), vec![content(""), HTMLComponent::NewLine]);
}

#[test]
fn heading_line_yields_its_four_pieces_first() {
    let pieces = tokens("\\1Hi\n");
    assert_eq!(
        pieces[..4],
        [content(""), HTMLComponent::Heading(1), content("Hi"), HTMLComponent::NewLine]
    );
}

#[test]
fn end_of_input_adds_content_and_line_break_after_a_line_feed() {
    assert_eq!(
        tokens("\\1Hi\n"),
        vec![
            content(""),
            HTMLComponent::Heading(1),
            content("Hi"),
            HTMLComponent::NewLine,
            content(""),
            HTMLComponent::NewLine,
        ]
    );
}

#[test]
fn line_feed_flushes_content() {
    assert_eq!(
        tokens("a\nb"),
        vec![content("a"), HTMLComponent::NewLine, content("b"), HTMLComponent::NewLine]
    );
}

#[test]
fn carriage_return_is_dropped() {
    assert_eq!(
        tokens("a\r\nb\rc"),
        vec![content("a"), HTMLComponent::NewLine, content("bc"), HTMLComponent::NewLine]
    );
}

#[test]
fn escaped_backslash_starts_the_next_content() {
    assert_eq!(tokens("a\\\\b"), vec![content("a"), content("\\b"), HTMLComponent::NewLine]);
}

#[test]
fn raw_html_span() {
    assert_eq!(
        tokens("a\\h[<b>x</b>]b"),
        vec![
            content("a"),
            HTMLComponent::RawHTML(String::from("<b>x</b>")),
            content("b"),
            HTMLComponent::NewLine,
        ]
    );
}

#[test]
fn image_span() {
    assert_eq!(
        tokens("\\i[cat.png]"),
        vec![
            content(""),
            HTMLComponent::Image(String::from("cat.png")),
            content(""),
            HTMLComponent::NewLine,
        ]
    );
}

#[test]
fn link_has_display_then_address() {
    assert_eq!(
        tokens("\\l[text][http://example.com]"),
        vec![
            content(""),
            HTMLComponent::Link(String::from("text"), String::from("http://example.com")),
            content(""),
            HTMLComponent::NewLine,
        ]
    );
}

#[test]
fn every_heading_digit() {
    assert_eq!(
        tokens("\\1\\2\\3\\4\\5\\6"),
        vec![
            content(""),
            HTMLComponent::Heading(1),
            content(""),
            HTMLComponent::Heading(2),
            content(""),
            HTMLComponent::Heading(3),
            content(""),
            HTMLComponent::Heading(4),
            content(""),
            HTMLComponent::Heading(5),
            content(""),
            HTMLComponent::Heading(6),
            content(""),
            HTMLComponent::NewLine,
        ]
    );
}

#[test]
fn digits_outside_one_to_six_are_dropped() {
    assert_eq!(tokens("\\0a\\7b"), vec![content(""), content("a"), content("b"), HTMLComponent::NewLine]);
}

#[test]
fn unknown_selector_is_dropped() {
    assert_eq!(tokens("a\\xb"), vec![content("a"), content("b"), HTMLComponent::NewLine]);
}

#[test]
fn backslash_before_line_feed_drops_the_line_feed() {
    assert_eq!(tokens("a\\\nb"), vec![content("a"), content("b"), HTMLComponent::NewLine]);
}

#[test]
fn backslash_at_the_end_only_flushes() {
    assert_eq!(tokens("a\\"), vec![content("a"), content(""), HTMLComponent::NewLine]);
}

#[test]
fn selector_at_the_end_yields_nothing() {
    assert_eq!(tokens("a\\h"), vec![content("a"), content(""), HTMLComponent::NewLine]);
    assert_eq!(tokens("a\\l"), vec![content("a"), content(""), HTMLComponent::NewLine]);
}

#[test]
fn missing_opening_bracket_drops_the_escape_and_the_character_read() {
    assert_eq!(tokens("\\hx y"), vec![content(""), content(" y"), HTMLComponent::NewLine]);
    assert_eq!(tokens("\\ix y"), vec![content(""), content(" y"), HTMLComponent::NewLine]);
    assert_eq!(tokens("\\lx y"), vec![content(""), content(" y"), HTMLComponent::NewLine]);
}

#[test]
fn link_without_second_span_is_dropped() {
    assert_eq!(tokens("\\l[a]x y"), vec![content(""), content(" y"), HTMLComponent::NewLine]);
    assert_eq!(tokens("\\l[a]"), vec![content(""), content(""), HTMLComponent::NewLine]);
}

#[test]
fn unclosed_span_ends_at_the_end_of_input() {
    assert_eq!(
        tokens("\\i[abc"),
        vec![
            content(""),
            HTMLComponent::Image(String::from("abc")),
            content(""),
            HTMLComponent::NewLine,
        ]
    );
    assert_eq!(
        tokens("\\h["),
        vec![content(""), HTMLComponent::RawHTML(String::new()), content(""), HTMLComponent::NewLine]
    );
}

#[test]
fn unclosed_second_span_of_a_link() {
    assert_eq!(
        tokens("\\l[a][b"),
        vec![
            content(""),
            HTMLComponent::Link(String::from("a"), String::from("b")),
            content(""),
            HTMLComponent::NewLine,
        ]
    );
}

#[test]
fn first_closing_bracket_ends_the_span() {
    assert_eq!(
        tokens("\\h[a[b]c]"),
        vec![
            content(""),
            HTMLComponent::RawHTML(String::from("a[b")),
            content("c]"),
            HTMLComponent::NewLine,
        ]
    );
}

#[test]
fn span_keeps_line_feeds_carriage_returns_and_backslashes() {
    assert_eq!(
        tokens("\\h[a\r\n\\b]"),
        vec![
            content(""),
            HTMLComponent::RawHTML(String::from("a\r\n\\b")),
            content(""),
            HTMLComponent::NewLine,
        ]
    );
}

#[test]
fn characters_of_several_bytes_stay_whole() {
    assert_eq!(
        tokens("é\n日本語😀"),
        vec![content("é"), HTMLComponent::NewLine, content("日本語😀"), HTMLComponent::NewLine]
    );
    assert_eq!(
        tokens("\\h[naïve 😀]ü"),
        vec![
            content(""),
            HTMLComponent::RawHTML(String::from("naïve 😀")),
            content("ü"),
            HTMLComponent::NewLine,
        ]
    );
}

#[test]
fn selector_of_several_bytes_is_dropped_whole() {
    assert_eq!(tokens("a\\éb"), vec![content("a"), content("b"), HTMLComponent::NewLine]);
    assert_eq!(tokens("a\\😀b"), vec![content("a"), content("b"), HTMLComponent::NewLine]);
    assert_eq!(tokens("a\\日"), vec![content("a"), content(""), HTMLComponent::NewLine]);
}

#[test]
fn character_of_several_bytes_in_place_of_a_bracket_is_dropped_whole() {
    assert_eq!(tokens("\\hé["), vec![content(""), content("["), HTMLComponent::NewLine]);
    assert_eq!(tokens("\\l[a]😀b"), vec![content(""), content("b"), HTMLComponent::NewLine]);
}

#[test]
fn pieces_always_end_with_content_and_line_break() {
    for text in ["", "a", "a\n", "\\1", "\\h[x", "\\", "\\l[a]", "é\\é"] {
        let pieces = tokens(text);
        assert!(pieces.len() >= 2);
        assert!(matches!(pieces[pieces.len() - 2], HTMLComponent::Content(_)));
        assert_eq!(pieces[pieces.len() - 1], HTMLComponent::NewLine);
    }
}

#[test]
fn bracket_reader_reads_a_closed_span() {
    let mut cursor: usize = 2;
    let span = MDFile::get_bracket_internal(b"\\h[abc]rest", &mut cursor);
    assert_eq!(span, Some(b"abc".to_vec()));
    assert_eq!(cursor, 7);
}

#[test]
fn bracket_reader_reads_an_empty_span() {
    let mut cursor: usize = 0;
    assert_eq!(MDFile::get_bracket_internal(b"[]x", &mut cursor), Some(Vec::new()));
    assert_eq!(cursor, 2);
}

#[test]
fn bracket_reader_stops_at_the_end_of_input() {
    let mut cursor: usize = 0;
    assert_eq!(MDFile::get_bracket_internal(b"[abc", &mut cursor), Some(b"abc".to_vec()));
    assert_eq!(cursor, 4);
}

#[test]
fn bracket_reader_reads_one_character_that_is_no_bracket() {
    let mut cursor: usize = 0;
    assert_eq!(MDFile::get_bracket_internal(b"x[abc]", &mut cursor), None);
    assert_eq!(cursor, 1);
    let mut cursor: usize = 0;
    assert_eq!(MDFile::get_bracket_internal("日[abc]".as_bytes(), &mut cursor), None);
    assert_eq!(cursor, 3);
    let mut cursor: usize = 0;
    assert_eq!(MDFile::get_bracket_internal(&[0xf0, 0x9f], &mut cursor), None);
    assert_eq!(cursor, 2);
}

#[test]
fn bracket_reader_reads_nothing_at_the_end() {
    let mut cursor: usize = 3;
    assert_eq!(MDFile::get_bracket_internal(b"abc", &mut cursor), None);
    assert_eq!(cursor, 3);
    let mut cursor: usize = 9;
    assert_eq!(MDFile::get_bracket_internal(b"abc", &mut cursor), None);
    assert_eq!(cursor, 9);
}

#[test]
fn component_clone_is_equal() {
    let link = HTMLComponent::Link(String::from("a"), String::from("b"));
    assert_eq!(link.clone(), link);
    assert_eq!(HTMLComponent::Heading(3).clone(), HTMLComponent::Heading(3));
}
