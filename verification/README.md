# epub_tts

A command-line EPUB narrator whose logic is a Verus-verified library.

## Layout

- `src/` — the verified library:
  - `chars.rs`: Unicode whitespace, trimming, splitting, joining, and the
    conversions between `String` and character vectors.
  - `text.rs`: HTML body extraction, whitespace normalisation (through the
    `regex` and `html2text` crates) and the chunking of chapter text for speech.
  - `text_laws.rs`, `normalize_laws.rs`, `wrap_laws.rs`: the laws of chunking,
    normalisation, sentence splitting and hard wrapping (words kept in order,
    chunks within the limit unless a single word is longer, normalised text is
    clean and idempotent, greedy wrapping, sentence pieces end at terminators).
  - `tts_engine.rs`: backend and device names, language tags, default speaker
    and the settings an engine is loaded with.
  - `book.rs`: metadata, spine and table-of-contents logic over plain values.
  - `export.rs`, `paths.rs`: output formats, MP3 rate choice and encoding
    (through `shine-rs`), output paths.
  - `cli.rs`: the decisions of the commands, including the chapter-by-chapter
    reading session.
  - `audio.rs`: the index arithmetic of silence trimming and joining.
- `app/` — the program around it: argument parsing, EPUB loading, speech
  synthesis, sample processing in floating point, playback and file output.
- `tests/` — tests of the library on concrete values.
