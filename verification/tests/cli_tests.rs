use epub_tts::book::{BookMeta, ChapterInfo};
use epub_tts::cli::{
    chapter_lines, chapter_range, chapter_text_lines, check_read_request, info_lines, log_level, read_instruct,
    read_language, truncate, truncate_msg, ChapterJob, ReadSession,
};
use epub_tts::tts_engine::Backend;
use epub_tts::export::AudioFormat;

#[test]
fn ranges() {
    assert_eq!(chapter_range(0, None, 3), Ok((0, 0)));
    assert_eq!(chapter_range(1, Some(2), 3), Ok((1, 2)));
    assert_eq!(chapter_range(0, None, 0), Err("EPUB has no spine chapters".to_string()));
    assert_eq!(chapter_range(3, None, 3), Err("chapter 3 out of range (0..3)".to_string()));
    assert_eq!(chapter_range(1, Some(5), 3), Err("chapter 5 out of range (0..3)".to_string()));
    assert_eq!(chapter_range(2, Some(1), 3), Err("--to (1) must be >= --chapter (2)".to_string()));
}

#[test]
fn truncation() {
    assert_eq!(truncate("abcdef", 6), "abcdef");
    assert_eq!(truncate("abcdefg", 6), "abcde…");
    assert_eq!(truncate("abc", 0), "…");
    assert_eq!(truncate_msg("héllo wörld", 5), "héll…");
}

#[test]
fn log_levels() {
    assert_eq!(log_level(0), "error");
    assert_eq!(log_level(1), "info");
    assert_eq!(log_level(2), "debug");
    assert_eq!(log_level(9), "trace");
}

#[test]
fn info_output() {
    let meta = BookMeta {
        title: None,
        creators: vec!["Ann".to_string(), "Bob".to_string()],
        language: Some("en".to_string()),
        publisher: None,
        identifier: Some("id1".to_string()),
        description: Some("d".repeat(300)),
        chapter_count: 12,
    };
    let lines = info_lines("book.epub", &meta);
    assert_eq!(
        lines,
        vec![
            "File:       book.epub".to_string(),
            "Title:      (unknown)".to_string(),
            "Author(s):  Ann, Bob".to_string(),
            "Language:   en".to_string(),
            "Identifier: id1".to_string(),
            "Chapters:   12".to_string(),
            format!("Description:\n  {}…", "d".repeat(280)),
        ]
    );
}

#[test]
fn chapter_table() {
    assert_eq!(chapter_lines(&vec![]), vec!["(no spine chapters)".to_string()]);
    let chapters = vec![ChapterInfo {
        index: 7,
        id: "c7".to_string(),
        title: Some("Seven".to_string()),
        path: None,
    }];
    let lines = chapter_lines(&chapters);
    assert_eq!(lines[0], format!("{:>5}  {:<24}  {:<36}  {}", "INDEX", "ID", "PATH", "TITLE"));
    assert_eq!(lines[1], format!("{:>5}  {:<24}  {:<36}  {}", 7, "c7", "-", "Seven"));
}

#[test]
fn text_output() {
    assert_eq!(chapter_text_lines(3, true, ""), vec!["===== Chapter 3 =====\n".to_string(), "(empty chapter)\n".to_string()]);
    assert_eq!(chapter_text_lines(3, false, "Hi"), vec!["Hi\n".to_string()]);
}

#[test]
fn read_defaults() {
    assert!(check_read_request(true, false).is_ok());
    assert!(check_read_request(false, true).is_ok());
    assert_eq!(
        check_read_request(false, false),
        Err("nothing to do: enable playback (default) or pass --output".to_string())
    );
    assert_eq!(read_language(None, Some("de".to_string())), "de");
    assert_eq!(read_language(None, None), "en");
    assert_eq!(read_language(Some("fr".to_string()), Some("de".to_string())), "fr");
    assert_eq!(
        read_instruct(None, Backend::Qwen3Tts).as_deref(),
        Some("Clear, natural audiobook narration with accurate pronunciation.")
    );
    assert_eq!(read_instruct(None, Backend::Kokoro), None);
}

#[test]
fn session_visits_range_in_order() {
    let mut s = ReadSession::plan(2, Some(4), 10, 400).unwrap();
    let mut seen = vec![];
    while let Some(i) = s.next_chapter() {
        seen.push(i);
    }
    assert_eq!(seen, vec![2, 3, 4]);
    assert_eq!(s.next_chapter(), None);
    assert!(ReadSession::plan(4, Some(2), 10, 400).is_err());
}

#[test]
fn session_prepares_chapters() {
    let s = ReadSession::plan(0, None, 1, 400).unwrap();
    assert!(matches!(s.prepare(0, "Intro", " \n "), ChapterJob::Skip));
    match s.prepare(0, "A rather long chapter title that goes on and on", "Hello there.") {
        ChapterJob::Speak { pieces, label } => {
            assert_eq!(pieces, vec!["Hello there.".to_string()]);
            assert_eq!(label, "ch0 A rather long chapter title that go…");
        }
        ChapterJob::Skip => panic!("expected speech"),
    }
    let chapters = vec![ChapterInfo { index: 0, id: "a".to_string(), title: None, path: None }];
    assert_eq!(ReadSession::chapter_title(&chapters, 0), "chapter-0");
    assert_eq!(ReadSession::chapter_title(&chapters, 5), "chapter-5");
}

#[test]
fn session_output_targets() {
    let single = ReadSession::plan(1, None, 3, 400).unwrap();
    let t = single.output_target("out/a.wav", 1, false);
    assert_eq!(t.path, "out/a.wav");
    assert_eq!(t.create_dir.as_deref(), Some("out"));
    assert_eq!(t.format, AudioFormat::Wav);
    let t = single.output_target("a.wav", 1, false);
    assert_eq!(t.create_dir, None);
    let t = single.output_target("chapter1.mp3", 1, false);
    assert_eq!(t.path, "chapter1.mp3");
    assert_eq!(t.format, AudioFormat::Mp3);
    let t = single.output_target("out", 1, true);
    assert_eq!(t.path, "out/0001.wav");
    assert_eq!(t.create_dir.as_deref(), Some("out"));
    let multi = ReadSession::plan(0, Some(2), 3, 400).unwrap();
    let t = multi.output_target("out", 2, false);
    assert_eq!(t.path, "out/0002.wav");
    assert_eq!(t.create_dir.as_deref(), Some("out"));
    assert_eq!(t.format, AudioFormat::Wav);
    let t = multi.output_target("book.mp3", 2, false);
    assert_eq!(t.path, "book.mp3/0002.wav");
    assert_eq!(t.create_dir.as_deref(), Some("book.mp3"));
    assert_eq!(t.format, AudioFormat::Wav);
}
