use epub_tts::export::{
    chapter_output_plan, output_parts, encode_mp3, mp3_sample_rate_for, nearest_rate, AudioFormat,
};

#[test]
fn format_from_extension() {
    assert_eq!(AudioFormat::from_path("a.mp3"), AudioFormat::Mp3);
    assert_eq!(AudioFormat::from_path("a.MP3"), AudioFormat::Mp3);
    assert_eq!(AudioFormat::from_path("a.wav"), AudioFormat::Wav);
    assert_eq!(AudioFormat::from_path("a"), AudioFormat::Wav);
}

#[test]
fn extension_round_trip() {
    for f in [AudioFormat::Wav, AudioFormat::Mp3] {
        assert_eq!(AudioFormat::from_extension(Some(f.extension())), f);
    }
    assert_eq!(AudioFormat::from_path("dir.mp3/.mp3"), AudioFormat::Wav);
}

#[test]
fn nearest_rates() {
    let rates = vec![8_000, 11_025, 12_000, 16_000, 22_050, 24_000, 32_000, 44_100, 48_000];
    assert_eq!(nearest_rate(23_000, &rates), Some(22_050));
    assert_eq!(nearest_rate(100_000, &rates), Some(48_000));
    assert_eq!(nearest_rate(10_000, &vec![9_000, 11_000]), Some(9_000));
    assert_eq!(nearest_rate(5, &vec![]), None);
    assert_eq!(mp3_sample_rate_for(24_000), 24_000);
    assert_eq!(mp3_sample_rate_for(25_000), 24_000);
    assert_eq!(mp3_sample_rate_for(46_000), 44_100);
}

#[test]
fn mp3_encode_produces_bytes() {
    let pcm: Vec<i16> = (0..24_000).map(|i| ((i % 100) as i16 - 50) * 100).collect();
    let bytes = encode_mp3(&pcm, 24_000).expect("encode mp3");
    assert!(bytes.len() > 100, "mp3 too small: {}", bytes.len());
}

#[test]
fn mp3_encode_errors() {
    assert!(encode_mp3(&vec![], 24_000).is_err());
    let e = encode_mp3(&vec![1, 2, 3], 23_456).unwrap_err();
    assert!(e.starts_with("MP3 encode failed: "), "{e}");
}

#[test]
fn output_paths() {
    let p = chapter_output_plan("out/book.mp3", 3, false, false);
    assert_eq!(p.path, "out/book.mp3");
    assert_eq!(p.create_dir, None);
    let p = chapter_output_plan("out/book.mp3", 3, true, false);
    assert_eq!(p.path, "out/book-0003.mp3");
    assert_eq!(p.create_dir.as_deref(), Some("out"));
    let p = chapter_output_plan("audio", 12, false, false);
    assert_eq!(p.path, "audio/0012.wav");
    assert_eq!(p.create_dir.as_deref(), Some("audio"));
    let p = chapter_output_plan("x.mp3", 7, false, true);
    assert_eq!(p.path, "x.mp3/0007.mp3");
}

#[test]
fn output_parts_cases() {
    let p = output_parts("out/book.mp3", Some("mp3"), Some("book"), Some("out"), 3, false, false);
    assert_eq!(p.create_dir, None);
    assert_eq!(p.join, None);
    let p = output_parts("out/book.mp3", Some("mp3"), Some("book"), Some("out"), 3, true, false);
    assert_eq!(p.create_dir.as_deref(), Some("out"));
    assert_eq!(p.join, Some(("out".to_string(), "book-0003.mp3".to_string())));
    let p = output_parts("book.MP3", Some("MP3"), None, None, 4, true, false);
    assert_eq!(p.create_dir.as_deref(), Some("."));
    assert_eq!(p.join, Some((".".to_string(), "chapter-0004.mp3".to_string())));
    let p = output_parts("audio", None, Some("audio"), Some(""), 12, false, false);
    assert_eq!(p.create_dir.as_deref(), Some("audio"));
    assert_eq!(p.join, Some(("audio".to_string(), "0012.wav".to_string())));
    let p = output_parts("x.mp3", Some("mp3"), Some("x"), Some(""), 7, false, true);
    assert_eq!(p.join, Some(("x.mp3".to_string(), "0007.mp3".to_string())));
}
