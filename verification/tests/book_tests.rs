use epub_tts::book::{
    book_chapters, book_meta, check_chapter_index, chapter_text_from_xhtml, find_toc_title, paths_match,
    strip_fragment, BookContents, MetadataEntry, Resource, TocEntry,
};

fn md(p: &str, v: &str) -> MetadataEntry {
    MetadataEntry { property: p.to_string(), value: v.to_string() }
}

fn toc(label: &str, content: &str, children: Vec<TocEntry>) -> TocEntry {
    TocEntry { label: label.to_string(), content: content.to_string(), children }
}

fn sample() -> BookContents {
    BookContents {
        metadata: vec![
            md("title", "The Book"),
            md("creator", "Ann"),
            md("language", "en"),
            md("creator", "Bob"),
            md("title", "Subtitle"),
            md("identifier", "urn:x"),
        ],
        unique_identifier: None,
        spine: vec!["cover".to_string(), "c1".to_string(), "c2".to_string(), "missing".to_string()],
        resources: vec![
            Resource { id: "cover".to_string(), path: "OEBPS/cover.xhtml".to_string() },
            Resource { id: "c1".to_string(), path: "OEBPS/text/ch1.xhtml".to_string() },
            Resource { id: "c2".to_string(), path: "OEBPS/text/ch2.xhtml".to_string() },
        ],
        toc: vec![
            toc("Part One", "text/ch1.xhtml#start", vec![toc("Section", "text/ch1.xhtml#s1", vec![])]),
            toc("Chapter Two", "OEBPS/text/ch2.xhtml", vec![]),
        ],
    }
}

#[test]
fn meta_uses_first_values() {
    let m = book_meta(&sample());
    assert_eq!(m.title.as_deref(), Some("The Book"));
    assert_eq!(m.creators, vec!["Ann".to_string(), "Bob".to_string()]);
    assert_eq!(m.language.as_deref(), Some("en"));
    assert_eq!(m.publisher, None);
    assert_eq!(m.identifier.as_deref(), Some("urn:x"));
    assert_eq!(m.description, None);
    assert_eq!(m.chapter_count, 4);
}

#[test]
fn unique_identifier_wins() {
    let mut c = sample();
    c.unique_identifier = Some("isbn".to_string());
    assert_eq!(book_meta(&c).identifier.as_deref(), Some("isbn"));
}

#[test]
fn chapters_get_paths_and_titles() {
    let chapters = book_chapters(&sample());
    assert_eq!(chapters.len(), 4);
    assert_eq!(chapters[0].index, 0);
    assert_eq!(chapters[0].title, None);
    assert_eq!(chapters[1].id, "c1");
    assert_eq!(chapters[1].path.as_deref(), Some("OEBPS/text/ch1.xhtml"));
    assert_eq!(chapters[1].title.as_deref(), Some("Part One"));
    assert_eq!(chapters[2].title.as_deref(), Some("Chapter Two"));
    assert_eq!(chapters[3].path, None);
    assert_eq!(chapters[3].title, None);
}

#[test]
fn toc_search_is_depth_first() {
    let t = vec![toc("A", "a.xhtml", vec![toc("A1", "b.xhtml", vec![])]), toc("B", "b.xhtml", vec![])];
    assert_eq!(find_toc_title(&t, "b.xhtml").as_deref(), Some("A1"));
    assert_eq!(find_toc_title(&t, "c.xhtml"), None);
}

#[test]
fn fragments_and_path_matching() {
    assert_eq!(strip_fragment("a/b.xhtml#x#y"), "a/b.xhtml");
    assert_eq!(strip_fragment("plain"), "plain");
    assert!(paths_match("OEBPS/text/ch1.xhtml", "text/ch1.xhtml"));
    assert!(paths_match("ch1.xhtml", "OEBPS/ch1.xhtml"));
    assert!(!paths_match("xch1.xhtml", "ch1.xhtml"));
    assert!(paths_match("a//b", "a/b"));
}

#[test]
fn chapter_index_errors() {
    assert_eq!(check_chapter_index(2, 3), Ok(()));
    assert_eq!(check_chapter_index(3, 3), Err("chapter index 3 out of range (0..3)".to_string()));
}

#[test]
fn chapter_text_from_markup() {
    assert_eq!(chapter_text_from_xhtml("<html><body><p>One.</p></body></html>"), "One.");
}
