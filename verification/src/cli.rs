//! The decisions of the command-line front end: chapter ranges, what `info`,
//! `chapters` and `text` print, and the steps of reading a range of chapters
//! aloud.
use vstd::prelude::*;
use crate::chars::{
    chars_of, string_of, string_of_range, concat_str, push_char, decimal, decimal_chars,
    pad_left, pad_right, pad_left_chars, pad_right_chars, trim, trimmed, join,
};
use crate::book::{BookMeta, ChapterInfo, opt_view};
use crate::tts_engine::Backend;
use crate::text::{chunk_for_tts, tts_chunks};
use crate::chars::string_views;
use crate::paths::{std_path_extension, std_path_join, std_path_parent, path_join, path_parent};
use crate::export::{chapter_number, chapter_number_string, format_for_extension, AudioFormat};

verus! {

// ---------------------------------------------------------------------------
// Chapter ranges and short labels
// ---------------------------------------------------------------------------

/// The outcome of `chapter_range`: the range, or the message of the first
/// check that fails.
pub open spec fn chapter_range_spec(start: nat, to: Option<usize>, total: nat) -> Result<(nat, nat), Seq<char>> {
    let end: nat = match to {
        Some(t) => t as nat,
        None => start,
    };
    if total == 0 {
        Err("EPUB has no spine chapters"@)
    } else if start >= total {
        Err("chapter "@ + decimal(start) + " out of range (0.."@ + decimal(total) + ")"@)
    } else if end >= total {
        Err("chapter "@ + decimal(end) + " out of range (0.."@ + decimal(total) + ")"@)
    } else if end < start {
        Err("--to ("@ + decimal(end) + ") must be >= --chapter ("@ + decimal(start) + ")"@)
    } else {
        Ok((start, end))
    }
}

fn out_of_range_message(index: usize, total: usize) -> (r: String)
    ensures
        r@ == "chapter "@ + decimal(index as nat) + " out of range (0.."@ + decimal(total as nat) + ")"@,
{
    let a = concat_str("chapter ", string_of(&decimal_chars(index)).as_str());
    let b = concat_str(a.as_str(), " out of range (0..");
    let c = concat_str(b.as_str(), string_of(&decimal_chars(total)).as_str());
    concat_str(c.as_str(), ")")
}

/// The inclusive chapter range `start..=to` (a single chapter without `to`),
/// checked against the number of chapters.
pub fn chapter_range(start: usize, to: Option<usize>, total: usize) -> (r: Result<(usize, usize), String>)
    ensures
        match chapter_range_spec(start as nat, to, total as nat) {
            Ok((s, e)) => r matches Ok((a, b)) && a == s && b == e,
            Err(m) => r matches Err(e) && e@ == m,
        },
{
    if total == 0 {
        return Err(String::from_str("EPUB has no spine chapters"));
    }
    let end = match to {
        Some(t) => t,
        None => start,
    };
    if start >= total {
        return Err(out_of_range_message(start, total));
    }
    if end >= total {
        return Err(out_of_range_message(end, total));
    }
    if end < start {
        let a = concat_str("--to (", string_of(&decimal_chars(end)).as_str());
        let b = concat_str(a.as_str(), ") must be >= --chapter (");
        let c = concat_str(b.as_str(), string_of(&decimal_chars(start)).as_str());
        return Err(concat_str(c.as_str(), ")"));
    }
    Ok((start, end))
}

/// `s` cut to `max` characters, the last of them an ellipsis, when it is longer.
pub open spec fn truncated_to(s: Seq<char>, max: nat) -> Seq<char> {
    if s.len() <= max {
        s
    } else {
        let keep: nat = if max >= 1 {
            (max - 1) as nat
        } else {
            0
        };
        s.take(keep as int).push('…')
    }
}

/// `s` cut to at most `max` characters, ending in an ellipsis when cut.
pub fn truncate(s: &str, max: usize) -> (r: String)
    ensures
        r@ == truncated_to(s@, max as nat),
{
    let v = chars_of(s);
    if v.len() <= max {
        String::from_str(s)
    } else {
        let keep = if max >= 1 { max - 1 } else { 0 };
        let mut head = string_of_range(&v, 0, keep);
        push_char(&mut head, '…');
        assert(v@.subrange(0, keep as int) =~= s@.take(keep as int));
        head
    }
}

/// The same cut, for progress labels.
pub fn truncate_msg(s: &str, max: usize) -> (r: String)
    ensures
        r@ == truncated_to(s@, max as nat),
{
    truncate(s, max)
}

/// The log filter for a verbosity count: error, info, debug, then trace.
pub open spec fn log_level_spec(verbose: u8) -> Seq<char> {
    if verbose == 0 {
        "error"@
    } else if verbose == 1 {
        "info"@
    } else if verbose == 2 {
        "debug"@
    } else {
        "trace"@
    }
}

/// The log filter for `-v` repeated `verbose` times.
pub fn log_level(verbose: u8) -> (r: &'static str)
    ensures
        r@ == log_level_spec(verbose),
{
    match verbose {
        0 => "error",
        1 => "info",
        2 => "debug",
        _ => "trace",
    }
}

// ---------------------------------------------------------------------------
// What `info`, `chapters` and `text` print
// ---------------------------------------------------------------------------

/// A description shortened to 280 characters plus an ellipsis.
pub open spec fn short_description(d: Seq<char>) -> Seq<char> {
    if d.len() > 280 {
        d.take(280).push('…')
    } else {
        d
    }
}

/// The optional lines of `info`, in order.
pub open spec fn opt_line(label: Seq<char>, v: Option<Seq<char>>) -> Seq<Seq<char>> {
    match v {
        Some(x) => seq![label + x],
        None => Seq::empty(),
    }
}

/// The lines `info` prints for a book.
pub open spec fn info_lines_spec(path: Seq<char>, m: BookMeta) -> Seq<Seq<char>> {
    let creators = m.creators@.map_values(|s: String| s@);
    seq!["File:       "@ + path]
        + seq!["Title:      "@ + match opt_view(m.title) {
            Some(t) => t,
            None => "(unknown)"@,
        }]
        + (if creators.len() > 0 {
            seq!["Author(s):  "@ + join(creators, ", "@)]
        } else {
            Seq::empty()
        })
        + opt_line("Language:   "@, opt_view(m.language))
        + opt_line("Publisher:  "@, opt_view(m.publisher))
        + opt_line("Identifier: "@, opt_view(m.identifier))
        + seq!["Chapters:   "@ + decimal(m.chapter_count as nat)]
        + match opt_view(m.description) {
            Some(d) => seq!["Description:\n  "@ + short_description(d)],
            None => Seq::empty(),
        }
}

fn push_opt_line(lines: &mut Vec<String>, label: &str, v: &Option<String>)
    ensures
        string_views(final(lines)@) == string_views(old(lines)@) + opt_line(label@, opt_view(*v)),
{
    let ghost before = lines@;
    match v {
        Some(x) => {
            lines.push(concat_str(label, x.as_str()));
            assert(string_views(lines@) =~= string_views(before) + opt_line(label@, opt_view(*v)));
        },
        None => {
            assert(string_views(lines@) =~= string_views(before) + opt_line(label@, opt_view(*v)));
        },
    }
}

/// The strings joined with `", "`.
fn join_comma(items: &Vec<String>) -> (r: String)
    ensures
        r@ == join(items@.map_values(|s: String| s@), ", "@),
{
    let mut parts: Vec<Vec<char>> = Vec::new();
    let mut i: usize = 0;
    while i < items.len()
        invariant
            i <= items@.len(),
            parts@.len() == i,
            crate::chars::views(parts@) == items@.map_values(|s: String| s@).take(i as int),
        decreases items@.len() - i,
    {
        let ghost before = parts@;
        let item = &items[i];
        let v = chars_of(item.as_str());
        assert(v@ == items@[i as int]@);
        parts.push(v);
        assert(crate::chars::views(parts@) =~= crate::chars::views(before).push(items@[i as int]@));
        assert(crate::chars::views(parts@) =~= items@.map_values(|s: String| s@).take(i + 1));
        i += 1;
    }
    assert(items@.map_values(|s: String| s@).take(items@.len() as int) =~= items@.map_values(|s: String| s@));
    let sep = chars_of(", ");
    string_of(&crate::chars::join_chars(&parts, &sep))
}

/// The lines `info` prints for a book whose path displays as `path`.
pub fn info_lines(path: &str, meta: &BookMeta) -> (r: Vec<String>)
    ensures
        string_views(r@) == info_lines_spec(path@, *meta),
{
    let ghost creators = meta.creators@.map_values(|s: String| s@);
    let mut lines: Vec<String> = Vec::new();
    lines.push(concat_str("File:       ", path));
    let title = match &meta.title {
        Some(t) => concat_str("Title:      ", t.as_str()),
        None => concat_str("Title:      ", "(unknown)"),
    };
    lines.push(title);
    let ghost p1 = seq!["File:       "@ + path@] + seq!["Title:      "@ + match opt_view(meta.title) {
        Some(t) => t,
        None => "(unknown)"@,
    }];
    assert(string_views(lines@) =~= p1);
    let ghost before_authors = lines@;
    if meta.creators.len() > 0 {
        let names = join_comma(&meta.creators);
        lines.push(concat_str("Author(s):  ", names.as_str()));
        assert(string_views(lines@) =~= string_views(before_authors).push("Author(s):  "@ + join(creators, ", "@)));
    }
    let ghost p2 = p1 + (if creators.len() > 0 {
        seq!["Author(s):  "@ + join(creators, ", "@)]
    } else {
        Seq::empty()
    });
    assert(string_views(lines@) =~= p2);
    push_opt_line(&mut lines, "Language:   ", &meta.language);
    push_opt_line(&mut lines, "Publisher:  ", &meta.publisher);
    push_opt_line(&mut lines, "Identifier: ", &meta.identifier);
    let ghost p3 = p2 + opt_line("Language:   "@, opt_view(meta.language)) + opt_line(
        "Publisher:  "@,
        opt_view(meta.publisher),
    ) + opt_line("Identifier: "@, opt_view(meta.identifier));
    assert(string_views(lines@) =~= p3);
    let ghost before_count = lines@;
    lines.push(concat_str("Chapters:   ", string_of(&decimal_chars(meta.chapter_count)).as_str()));
    let ghost p4 = p3 + seq!["Chapters:   "@ + decimal(meta.chapter_count as nat)];
    assert(string_views(lines@) =~= string_views(before_count).push("Chapters:   "@ + decimal(meta.chapter_count as nat)));
    assert(string_views(lines@) =~= p4);
    let ghost before_desc = lines@;
    match &meta.description {
        Some(d) => {
            let dv = chars_of(d.as_str());
            let short = if dv.len() > 280 {
                let mut s = string_of_range(&dv, 0, 280);
                push_char(&mut s, '…');
                assert(dv@.subrange(0, 280) =~= d@.take(280));
                s
            } else {
                String::from_str(d.as_str())
            };
            lines.push(concat_str("Description:\n  ", short.as_str()));
            assert(string_views(lines@) =~= string_views(before_desc).push("Description:\n  "@ + short_description(d@)));
        },
        None => {},
    }
    assert(string_views(lines@) =~= info_lines_spec(path@, *meta));
    lines
}

/// The header of the `chapters` table.
pub open spec fn chapter_header_spec() -> Seq<char> {
    pad_left("INDEX"@, 5, ' ') + "  "@ + pad_right("ID"@, 24) + "  "@ + pad_right("PATH"@, 36) + "  "@ + "TITLE"@
}

/// One row of the `chapters` table.
pub open spec fn chapter_row_spec(c: ChapterInfo) -> Seq<char> {
    let path = match opt_view(c.path) {
        Some(p) => p,
        None => "-"@,
    };
    let title = match opt_view(c.title) {
        Some(t) => t,
        None => "-"@,
    };
    pad_left(decimal(c.index as nat), 5, ' ') + "  "@ + pad_right(truncated_to(c.id@, 24), 24) + "  "@
        + pad_right(truncated_to(path, 36), 36) + "  "@ + title
}

/// The lines `chapters` prints.
pub open spec fn chapter_lines_spec(cs: Seq<ChapterInfo>) -> Seq<Seq<char>> {
    if cs.len() == 0 {
        seq!["(no spine chapters)"@]
    } else {
        seq![chapter_header_spec()] + cs.map_values(|c: ChapterInfo| chapter_row_spec(c))
    }
}

fn cat3(a: &str, b: &str, c: &str) -> (r: String)
    ensures
        r@ == a@ + b@ + c@,
{
    let ab = concat_str(a, b);
    concat_str(ab.as_str(), c)
}

fn padded_right(s: &str, width: usize) -> (r: String)
    ensures
        r@ == pad_right(s@, width as nat),
{
    string_of(&pad_right_chars(&chars_of(s), width))
}

fn chapter_row(c: &ChapterInfo) -> (r: String)
    ensures
        r@ == chapter_row_spec(*c),
{
    let index = string_of(&pad_left_chars(&decimal_chars(c.index), 5, ' '));
    let id = padded_right(truncate(c.id.as_str(), 24).as_str(), 24);
    let path = match &c.path {
        Some(p) => truncate(p.as_str(), 36),
        None => truncate("-", 36),
    };
    let path = padded_right(path.as_str(), 36);
    let title = match &c.title {
        Some(t) => t.clone(),
        None => String::from_str("-"),
    };
    let a = cat3(index.as_str(), "  ", id.as_str());
    let b = cat3(a.as_str(), "  ", path.as_str());
    let r = cat3(b.as_str(), "  ", title.as_str());
    proof {
        reveal_strlit("-");
        assert(truncated_to("-"@, 36) == "-"@);
    }
    r
}

/// The lines `chapters` prints for a chapter listing.
pub fn chapter_lines(chapters: &Vec<ChapterInfo>) -> (r: Vec<String>)
    ensures
        string_views(r@) == chapter_lines_spec(chapters@),
{
    let mut lines: Vec<String> = Vec::new();
    if chapters.len() == 0 {
        lines.push(String::from_str("(no spine chapters)"));
        assert(string_views(lines@) =~= chapter_lines_spec(chapters@));
        return lines;
    }
    let index = string_of(&pad_left_chars(&chars_of("INDEX"), 5, ' '));
    let id = padded_right("ID", 24);
    let path = padded_right("PATH", 36);
    let a = cat3(index.as_str(), "  ", id.as_str());
    let b = cat3(a.as_str(), "  ", path.as_str());
    lines.push(cat3(b.as_str(), "  ", "TITLE"));
    let mut i: usize = 0;
    while i < chapters.len()
        invariant
            i <= chapters@.len(),
            lines@.len() == i + 1,
            lines@[0]@ == chapter_header_spec(),
            forall|k: int| 0 <= k < i ==> #[trigger] lines@[k + 1]@ == chapter_row_spec(chapters@[k]),
        decreases chapters@.len() - i,
    {
        lines.push(chapter_row(&chapters[i]));
        i += 1;
    }
    assert forall|k: int| 0 <= k < lines@.len() implies string_views(lines@)[k] == chapter_lines_spec(chapters@)[k] by {
        if k > 0 {
            assert(lines@[(k - 1) + 1]@ == chapter_row_spec(chapters@[k - 1]));
        }
    }
    assert(string_views(lines@) =~= chapter_lines_spec(chapters@));
    lines
}

/// What `text` prints for one chapter (each string is printed with a newline).
pub open spec fn chapter_text_lines_spec(index: nat, show_header: bool, text: Seq<char>) -> Seq<Seq<char>> {
    (if show_header {
        seq!["===== Chapter "@ + decimal(index) + " =====\n"@]
    } else {
        Seq::empty()
    }) + seq![if text.len() == 0 {
        "(empty chapter)\n"@
    } else {
        text + "\n"@
    }]
}

/// What `text` prints for one chapter; the header is shown for ranges.
pub fn chapter_text_lines(index: usize, show_header: bool, text: &str) -> (r: Vec<String>)
    ensures
        string_views(r@) == chapter_text_lines_spec(index as nat, show_header, text@),
{
    let mut lines: Vec<String> = Vec::new();
    if show_header {
        lines.push(cat3("===== Chapter ", string_of(&decimal_chars(index)).as_str(), " =====\n"));
    }
    if chars_of(text).len() == 0 {
        lines.push(String::from_str("(empty chapter)\n"));
    } else {
        lines.push(concat_str(text, "\n"));
    }
    assert(string_views(lines@) =~= chapter_text_lines_spec(index as nat, show_header, text@));
    lines
}

// ---------------------------------------------------------------------------
// Reading chapters aloud
// ---------------------------------------------------------------------------

/// The message when neither playback nor an output file is asked for.
pub open spec fn nothing_to_do_message() -> Seq<char> {
    "nothing to do: enable playback (default) or pass --output"@
}

/// A read needs playback or an output file.
pub fn check_read_request(play: bool, has_output: bool) -> (r: Result<(), String>)
    ensures
        (play || has_output) ==> r is Ok,
        !(play || has_output) ==> (r matches Err(e) && e@ == nothing_to_do_message()),
{
    if !play && !has_output {
        Err(String::from_str("nothing to do: enable playback (default) or pass --output"))
    } else {
        Ok(())
    }
}

/// The language a read uses: the user's, else the book's, else English.
pub fn read_language(arg: Option<String>, book_language: Option<String>) -> (r: String)
    ensures
        r@ == match arg {
            Some(a) => a@,
            None => match book_language {
                Some(b) => b@,
                None => "en"@,
            },
        },
{
    match arg {
        Some(a) => a,
        None => match book_language {
            Some(b) => b,
            None => String::from_str("en"),
        },
    }
}

/// The style instruction a read uses: the user's, else, for Qwen3, a clear
/// audiobook narration style.
pub fn read_instruct(arg: Option<String>, backend: Backend) -> (r: Option<String>)
    ensures
        opt_view(r) == match arg {
            Some(a) => Some(a@),
            None => if backend == Backend::Qwen3Tts {
                Some("Clear, natural audiobook narration with accurate pronunciation."@)
            } else {
                None
            },
        },
{
    match arg {
        Some(a) => Some(a),
        None => if backend == Backend::Qwen3Tts {
            Some(String::from_str("Clear, natural audiobook narration with accurate pronunciation."))
        } else {
            None
        },
    }
}

/// The chapters of a read still to come, in order.
pub struct ReadSession {
    start: usize,
    end: usize,
    chunk_chars: usize,
    /// The next chapter to hand out (while not finished).
    next: usize,
    /// All chapters have been handed out.
    finished: bool,
}

/// What to do with a chapter's text.
pub enum ChapterJob {
    /// Nothing to say: the chapter is blank.
    Skip,
    /// Synthesize these pieces, showing this label.
    Speak { pieces: Vec<String>, label: String },
}

/// Where a chapter's audio is written, which directory must exist first, and
/// the format it is written in.
pub struct OutputTarget {
    pub create_dir: Option<String>,
    pub path: String,
    pub format: AudioFormat,
}

/// The indices `from..=to`.
pub open spec fn index_range(from: int, to: int) -> Seq<usize>
    decreases to - from + 1,
{
    if to < from {
        Seq::empty()
    } else {
        seq![from as usize] + index_range(from + 1, to)
    }
}

impl ReadSession {
    /// While chapters are left, the next one lies within the range.
    #[verifier::type_invariant]
    spec fn inv(self) -> bool {
        !self.finished ==> self.start <= self.next <= self.end
    }

    /// The first chapter of the range.
    pub closed spec fn first(&self) -> usize {
        self.start
    }

    /// The last chapter of the range.
    pub closed spec fn last(&self) -> usize {
        self.end
    }

    /// The most characters per synthesis piece.
    pub closed spec fn piece_limit(&self) -> usize {
        self.chunk_chars
    }

    /// The chapter indices the session has yet to hand out.
    pub closed spec fn remaining(&self) -> Seq<usize> {
        if self.finished {
            Seq::empty()
        } else {
            index_range(self.next as int, self.end as int)
        }
    }

    /// Whether the session covers more than one chapter.
    pub open spec fn is_multi(&self) -> bool {
        self.first() != self.last()
    }

    /// A session over the chapters `chapter..=to` of a book with `total` chapters.
    pub fn plan(chapter: usize, to: Option<usize>, total: usize, chunk_chars: usize) -> (r: Result<ReadSession, String>)
        ensures
            match chapter_range_spec(chapter as nat, to, total as nat) {
                Ok((s, e)) => r matches Ok(session) && session.first() == s && session.last() == e
                    && session.piece_limit() == chunk_chars && session.remaining() == index_range(s as int, e as int),
                Err(m) => r matches Err(e) && e@ == m,
            },
    {
        match chapter_range(chapter, to, total) {
            Ok((start, end)) => Ok(ReadSession { start, end, chunk_chars, next: start, finished: false }),
            Err(e) => Err(e),
        }
    }

    /// Hands out the next chapter index, if any is left.
    pub fn next_chapter(&mut self) -> (r: Option<usize>)
        ensures
            final(self).first() == old(self).first(),
            final(self).last() == old(self).last(),
            final(self).piece_limit() == old(self).piece_limit(),
            old(self).remaining().len() == 0 ==> r is None && final(self).remaining() == old(self).remaining(),
            old(self).remaining().len() > 0 ==> r == Some(old(self).remaining()[0])
                && final(self).remaining() == old(self).remaining().drop_first(),
    {
        proof {
            use_type_invariant(&*self);
        }
        if self.finished {
            return None;
        }
        let idx = self.next;
        proof {
            assert(index_range(idx as int, self.end as int)[0] == idx);
        }
        if self.next == self.end {
            self.finished = true;
            proof {
                assert(index_range(idx as int + 1, self.end as int).len() == 0);
                assert(old(self).remaining().drop_first() =~= Seq::<usize>::empty());
            }
        } else {
            self.next = self.next + 1;
            proof {
                assert(old(self).remaining().drop_first() =~= index_range(idx + 1, self.end as int));
            }
        }
        Some(idx)
    }

    /// The title of chapter `index` from the listing, else `chapter-{index}`.
    pub fn chapter_title(chapters: &Vec<ChapterInfo>, index: usize) -> (r: String)
        ensures
            r@ == chapter_title_spec(chapters@, index),
    {
        let mut i: usize = 0;
        while i < chapters.len()
            invariant
                i <= chapters@.len(),
                forall|k: int| 0 <= k < i ==> (#[trigger] chapters@[k]).index != index,
            decreases chapters@.len() - i,
        {
            if chapters[i].index == index {
                proof {
                    lemma_first_chapter_with_index(chapters@, index, i as int);
                }
                return match &chapters[i].title {
                    Some(t) => t.clone(),
                    None => concat_str("chapter-", string_of(&decimal_chars(index)).as_str()),
                };
            }
            i += 1;
        }
        proof {
            lemma_no_chapter_with_index(chapters@, index);
        }
        concat_str("chapter-", string_of(&decimal_chars(index)).as_str())
    }

    /// What to do with the text of chapter `index`: skip it when blank, else
    /// split it into pieces of at most `chunk_chars` characters (see
    /// `chunk_for_tts`) labelled `ch{index} {title}` with the title cut to 36.
    pub fn prepare(&self, index: usize, title: &str, text: &str) -> (r: ChapterJob)
        ensures
            trim(text@).len() == 0 ==> r is Skip,
            trim(text@).len() > 0 ==> (r matches ChapterJob::Speak { pieces, label } && string_views(pieces@)
                == tts_chunks(text@, self.piece_limit() as nat) && label@ == "ch"@ + decimal(index as nat) + " "@
                + truncated_to(title@, 36)),
    {
        let t = trimmed(&chars_of(text));
        if t.len() == 0 {
            return ChapterJob::Skip;
        }
        let pieces = chunk_for_tts(text, self.chunk_chars);
        let label = cat3("ch", string_of(&decimal_chars(index)).as_str(), " ");
        let label = concat_str(label.as_str(), truncate_msg(title, 36).as_str());
        ChapterJob::Speak { pieces, label }
    }

    /// Where the audio of chapter `index` goes when the user passed `out`, and in
    /// which format: for a range of chapters, or when `out` is an existing
    /// directory, a `{index:04}.wav` file inside `out`, which is created first;
    /// otherwise `out` itself, after creating its parent directory when it names
    /// one. The format follows the extension of the path written.
    pub fn output_target(&self, out: &str, index: usize, out_is_dir: bool) -> (r: OutputTarget)
        ensures
            (opt_view(r.create_dir), r.path@) == read_target_spec(out@, index as nat, self.is_multi(), out_is_dir),
            r.format == format_for_extension(std_path_extension(r.path@)),
    {
        let (create_dir, path) = if self.start != self.end || out_is_dir {
            let name = concat_str(chapter_number_string(index).as_str(), ".wav");
            (Some(String::from_str(out)), path_join(out, name.as_str()))
        } else {
            let create_dir = match path_parent(out) {
                Some(p) => if chars_of(p.as_str()).len() > 0 {
                    Some(p)
                } else {
                    None
                },
                None => None,
            };
            (create_dir, String::from_str(out))
        };
        let format = AudioFormat::from_path(path.as_str());
        OutputTarget { create_dir, path, format }
    }
}

/// Where the read command writes chapter `index` when the user passed `out`:
/// the directory to create first (if any) and the file path.
pub open spec fn read_target_spec(out: Seq<char>, index: nat, multi: bool, out_is_dir: bool) -> (
    Option<Seq<char>>,
    Seq<char>,
) {
    if multi || out_is_dir {
        (Some(out), std_path_join(out, chapter_number(index) + ".wav"@))
    } else {
        (
            match std_path_parent(out) {
                Some(p) => if p.len() > 0 {
                    Some(p)
                } else {
                    None
                },
                None => None,
            },
            out,
        )
    }
}

/// The title `cmd_read` shows for a chapter.
pub open spec fn chapter_title_spec(chapters: Seq<ChapterInfo>, index: usize) -> Seq<char>
    decreases chapters.len(),
{
    if chapters.len() == 0 {
        "chapter-"@ + decimal(index as nat)
    } else if chapters[0].index == index {
        match opt_view(chapters[0].title) {
            Some(t) => t,
            None => "chapter-"@ + decimal(index as nat),
        }
    } else {
        chapter_title_spec(chapters.drop_first(), index)
    }
}

proof fn lemma_first_chapter_with_index(cs: Seq<ChapterInfo>, index: usize, i: int)
    requires
        0 <= i < cs.len(),
        cs[i].index == index,
        forall|k: int| 0 <= k < i ==> (#[trigger] cs[k]).index != index,
    ensures
        chapter_title_spec(cs, index) == match opt_view(cs[i].title) {
            Some(t) => t,
            None => "chapter-"@ + decimal(index as nat),
        },
    decreases i,
{
    if i > 0 {
        let t = cs.drop_first();
        assert forall|k: int| 0 <= k < i - 1 implies (#[trigger] t[k]).index != index by {
            assert(t[k] == cs[k + 1]);
        }
        assert(cs[0].index != index);
        lemma_first_chapter_with_index(t, index, i - 1);
    }
}

proof fn lemma_no_chapter_with_index(cs: Seq<ChapterInfo>, index: usize)
    requires
        forall|k: int| 0 <= k < cs.len() ==> (#[trigger] cs[k]).index != index,
    ensures
        chapter_title_spec(cs, index) == "chapter-"@ + decimal(index as nat),
    decreases cs.len(),
{
    if cs.len() > 0 {
        let t = cs.drop_first();
        assert forall|k: int| 0 <= k < t.len() implies (#[trigger] t[k]).index != index by {
            assert(t[k] == cs[k + 1]);
        }
        assert(cs[0].index != index);
        lemma_no_chapter_with_index(t, index);
    }
}

// ---------------------------------------------------------------------------
// Laws
// ---------------------------------------------------------------------------

/// A range that `chapter_range` accepts is non-empty and lies within the book.
pub proof fn lemma_chapter_range_valid(start: nat, to: Option<usize>, total: nat)
    ensures
        chapter_range_spec(start, to, total) matches Ok((s, e)) ==> s <= e < total && s == start,
{
}

/// A cut label never exceeds its limit (for a limit of at least one) and keeps
/// the start of the text.
pub proof fn lemma_truncated_fits(s: Seq<char>, max: nat)
    ensures
        max >= 1 ==> truncated_to(s, max).len() <= max,
        s.len() <= max ==> truncated_to(s, max) == s,
        s.len() > max ==> truncated_to(s, max).take(truncated_to(s, max).len() - 1) == s.take(
            truncated_to(s, max).len() - 1,
        ),
{
    if s.len() > max {
        let keep: int = if max >= 1 {
            max - 1
        } else {
            0
        };
        assert(truncated_to(s, max).take(keep) =~= s.take(keep));
    }
}

/// The chapters a read hands out are `from, from + 1, ..., to`, each once.
pub proof fn lemma_index_range(from: int, to: int)
    requires
        0 <= from,
        to <= usize::MAX,
    ensures
        index_range(from, to).len() == (if to < from {
            0
        } else {
            to - from + 1
        }),
        forall|k: int| 0 <= k < index_range(from, to).len() ==> #[trigger] index_range(from, to)[k] == from + k,
    decreases to - from + 1,
{
    if from <= to {
        lemma_index_range(from + 1, to);
        let r = index_range(from, to);
        assert forall|k: int| 0 <= k < r.len() implies #[trigger] r[k] == from + k by {
            if k > 0 {
                assert(r[k] == index_range(from + 1, to)[k - 1]);
            }
        }
    }
}

} // verus!
