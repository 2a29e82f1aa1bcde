use epub_tts::text::{chunk_for_tts, html_to_text, normalize_whitespace, text_from_rendering};

#[test]
fn strips_simple_html() {
    let html = r#"<html><body><p>Hello <b>world</b>.</p><p>Second paragraph.</p></body></html>"#;
    let text = html_to_text(html);
    assert!(text.contains("Hello"));
    assert!(text.contains("world"));
    assert!(text.contains("Second paragraph"));
}

#[test]
fn chunks_respect_max() {
    let text = "Alpha sentence number one. Beta sentence number two. Gamma sentence number three.";
    let chunks = chunk_for_tts(text, 40);
    assert!(
        chunks.iter().all(|c| c.chars().count() <= 40),
        "oversized chunks: {chunks:?}"
    );
    assert!(chunks.len() >= 2, "expected multiple chunks, got {chunks:?}");
}

#[test]
fn chunks_split_at_sentences() {
    let text = "Alpha sentence number one. Beta sentence number two. Gamma sentence number three.";
    let chunks = chunk_for_tts(text, 40);
    assert_eq!(
        chunks,
        vec![
            "Alpha sentence number one.".to_string(),
            "Beta sentence number two.".to_string(),
            "Gamma sentence number three.".to_string(),
        ]
    );
}

#[test]
fn chunks_pack_short_paragraphs() {
    let text = "One.\n\nTwo.\n\n\n\nThree.";
    let chunks = chunk_for_tts(text, 400);
    assert_eq!(chunks, vec!["One.\n\nTwo.\n\nThree.".to_string()]);
}

#[test]
fn chunks_limit_is_at_least_32() {
    let text = "aaaa bbbb cccc dddd eeee ffff gggg hhhh";
    // 39 characters with a limit of 10 raised to 32: hard-wrapped by words.
    let chunks = chunk_for_tts(text, 10);
    assert_eq!(
        chunks,
        vec!["aaaa bbbb cccc dddd eeee ffff".to_string(), "gggg hhhh".to_string()]
    );
}

#[test]
fn chunks_keep_overlong_word_alone() {
    let long_word = "x".repeat(50);
    let text = format!("short words here {long_word} tail");
    let chunks = chunk_for_tts(&text, 32);
    assert_eq!(
        chunks,
        vec!["short words here".to_string(), long_word.clone(), "tail".to_string()]
    );
}

#[test]
fn chunks_of_blank_text_are_empty() {
    assert!(chunk_for_tts("  \n\n \t ", 100).is_empty());
    assert!(chunk_for_tts("", 100).is_empty());
}

#[test]
fn chunks_preserve_words_in_order() {
    let text = "First paragraph is here. It has two sentences!\n\nSecond one? Yes. And a very long tail sentence that keeps going and going beyond the limit.";
    let chunks = chunk_for_tts(text, 40);
    let joined: Vec<&str> = chunks.iter().flat_map(|c| c.split_whitespace()).collect();
    let original: Vec<&str> = text.split_whitespace().collect();
    assert_eq!(joined, original);
    assert!(chunks.iter().all(|c| c.chars().count() <= 40 && !c.is_empty()));
}

#[test]
fn normalize_collapses_whitespace() {
    let text = "  Hello \t  world  \r\n\r\n\r\n\r\nNext\tline  \rLast  ";
    assert_eq!(normalize_whitespace(text), "Hello world\n\nNext line\n\nLast");
}

#[test]
fn normalize_of_blank_is_empty() {
    assert_eq!(normalize_whitespace(" \n \t \r\n"), "");
}

#[test]
fn normalize_is_idempotent_on_example() {
    let once = normalize_whitespace("a  b\n\n\n\nc\td \n e");
    assert_eq!(normalize_whitespace(&once), once);
    assert_eq!(once, "a b\n\nc d\n\ne");
}

#[test]
fn html_without_body_is_rendered_whole() {
    let text = html_to_text("<p>Just a fragment.</p>");
    assert_eq!(text, "Just a fragment.");
}

#[test]
fn html_body_is_case_insensitive() {
    let text = html_to_text("<HTML><HEAD><TITLE>Skip me</TITLE></HEAD><BODY class=\"x\"><P>Body text</P></BODY></HTML>");
    assert_eq!(text, "Body text");
}

#[test]
fn failed_rendering_gives_empty_text() {
    assert_eq!(text_from_rendering(None), "");
    assert_eq!(text_from_rendering(Some("  a \n\n\n b ".to_string())), "a\n\nb");
}

#[test]
fn normalize_keeps_words_in_order() {
    let text = "  The\tquick\r\n\r\n\r\nbrown   fox \u{a0} jumps\n\n\n\n\nover  ";
    let out = normalize_whitespace(text);
    let a: Vec<&str> = out.split_whitespace().collect();
    let b: Vec<&str> = text.split_whitespace().collect();
    assert_eq!(a, b);
    for line in out.split("\n\n") {
        assert!(!line.is_empty());
        assert_eq!(line, line.trim());
        assert!(!line.contains('\n'));
    }
}

#[test]
fn chunks_tidy_even_with_long_words() {
    let word = "y".repeat(70);
    let text = format!("  {word}.  Next sentence here.\n\n\tTiny.  ");
    let chunks = chunk_for_tts(&text, 20);
    for c in &chunks {
        assert!(!c.is_empty());
        assert_eq!(c.as_str(), c.trim());
        assert!(c.chars().count() <= 32 || !c.contains(char::is_whitespace));
    }
    let joined: Vec<&str> = chunks.iter().flat_map(|c| c.split_whitespace()).collect();
    let original: Vec<&str> = text.split_whitespace().collect();
    assert_eq!(joined, original);
}

#[test]
fn normalized_text_is_clean() {
    let out = normalize_whitespace(" a\t\tb  c\r\nd\r\r\r\r  e \u{a0}\n\n\n\nf  ");
    assert!(!out.contains('\t'));
    assert!(!out.contains('\r'));
    assert!(!out.contains("  "));
    assert_eq!(out, out.trim());
    let pieces: Vec<&str> = out.split("\n\n").collect();
    assert!(pieces.iter().all(|p| !p.is_empty() && !p.contains('\n')));
    assert_eq!(pieces, vec!["a b c", "d", "e", "f"]);
}

#[test]
fn long_sentence_is_wrapped_greedily() {
    let word = "abcdefghij";
    let text = vec![word; 5].join(" ");
    let chunks = chunk_for_tts(&text, 32);
    assert_eq!(
        chunks,
        vec!["abcdefghij abcdefghij abcdefghij".to_string(), "abcdefghij abcdefghij".to_string()]
    );
    assert_eq!(chunks.join(" "), text);
}
