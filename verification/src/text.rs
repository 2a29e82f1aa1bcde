//! Plain-text helpers for EPUB content and TTS-friendly chunking.
use vstd::prelude::*;
use crate::chars::{
    is_ws, trim, trim_start, trim_end, trimmed_nonempty, split_on, words, views, string_views,
    lemma_trim_start_at, append_chars, chars_of, copy_chars, slice_vec, trim_bounds, trimmed,
    is_whitespace, words_chars, split_chars, trim_each_nonempty, strings_of, first_match, join,
    replaced, replace_chars, join_chars, string_of, find_from, lowered, lower_chars,
};

verus! {

// ---------------------------------------------------------------------------
// Specifications: sentences, packing, chunks
// ---------------------------------------------------------------------------

/// A character that can end a sentence.
pub open spec fn is_terminator(c: char) -> bool {
    c == '.' || c == '!' || c == '?'
}

/// A sentence ends at index `i`: a terminator followed by whitespace or the end.
pub open spec fn ends_sentence_at(s: Seq<char>, i: int) -> bool {
    0 <= i < s.len() && is_terminator(s[i]) && (i + 1 == s.len() || is_ws(s[i + 1]))
}

/// Index of the first sentence end in `s`.
pub open spec fn first_sentence_end(s: Seq<char>) -> Option<int>
    decreases s.len(),
{
    if s.len() == 0 {
        None
    } else if ends_sentence_at(s, 0) {
        Some(0)
    } else {
        match first_sentence_end(s.drop_first()) {
            Some(i) => Some(i + 1),
            None => None,
        }
    }
}

/// `s` cut after each sentence end, the whitespace after an end left out.
pub open spec fn sentence_pieces(s: Seq<char>) -> Seq<Seq<char>>
    decreases s.len(),
{
    match first_sentence_end(s) {
        None => seq![s],
        Some(i) => {
            proof {
                lemma_first_sentence_end(s);
                lemma_trim_start_len(s.skip(i + 1));
            }
            seq![s.take(i + 1)] + sentence_pieces(trim_start(s.skip(i + 1)))
        },
    }
}

/// The trimmed, non-empty sentences of `text`; the whole text when there are none.
pub open spec fn sentences(text: Seq<char>) -> Seq<Seq<char>> {
    let ps = trimmed_nonempty(sentence_pieces(text));
    if ps.len() == 0 {
        seq![text]
    } else {
        ps
    }
}

/// One greedy packing step: `item` goes after `sep` into the current chunk,
/// unless that makes it longer than `max`, in which case the current chunk is
/// finished and `item` starts the next one.
pub open spec fn pack(
    done: Seq<Seq<char>>,
    cur: Seq<char>,
    item: Seq<char>,
    sep: Seq<char>,
    max: nat,
) -> (Seq<Seq<char>>, Seq<char>) {
    if cur.len() > 0 && cur.len() + sep.len() + item.len() > max {
        (done.push(cur), item)
    } else if cur.len() == 0 {
        (done, item)
    } else {
        (done, cur + sep + item)
    }
}

/// The finished chunks, with the current one appended when it is not empty.
pub open spec fn flush(st: (Seq<Seq<char>>, Seq<char>)) -> Seq<Seq<char>> {
    if st.1.len() > 0 {
        st.0.push(st.1)
    } else {
        st.0
    }
}

/// A single space.
pub open spec fn space() -> Seq<char> {
    seq![' ']
}

/// A blank line: the paragraph separator.
pub open spec fn blank_line() -> Seq<char> {
    seq!['\n', '\n']
}

/// Greedy packing of words, separated by single spaces.
pub open spec fn wrap_state(ws: Seq<Seq<char>>, max: nat) -> (Seq<Seq<char>>, Seq<char>)
    decreases ws.len(),
{
    if ws.len() == 0 {
        (Seq::empty(), Seq::empty())
    } else {
        let st = wrap_state(ws.drop_last(), max);
        pack(st.0, st.1, ws.last(), space(), max)
    }
}

/// The words of `text` packed into lines of at most `max` characters; a word
/// longer than `max` stands alone.
pub open spec fn hard_wrapped(text: Seq<char>, max: nat) -> Seq<Seq<char>> {
    flush(wrap_state(words(text), max))
}

/// Greedy packing of sentences; a sentence longer than `max` is hard-wrapped.
pub open spec fn sentence_state(ss: Seq<Seq<char>>, max: nat) -> (Seq<Seq<char>>, Seq<char>)
    decreases ss.len(),
{
    if ss.len() == 0 {
        (Seq::empty(), Seq::empty())
    } else {
        let st = sentence_state(ss.drop_last(), max);
        let s = trim(ss.last());
        if s.len() == 0 {
            st
        } else if s.len() > max {
            (flush(st) + hard_wrapped(s, max), Seq::empty())
        } else {
            pack(st.0, st.1, s, space(), max)
        }
    }
}

/// The chunks of a paragraph longer than `max`.
pub open spec fn long_paragraph_chunks(p: Seq<char>, max: nat) -> Seq<Seq<char>> {
    flush(sentence_state(sentences(p), max))
}

/// The trimmed, non-empty paragraphs of `text` (separated by blank lines).
pub open spec fn paragraphs(text: Seq<char>) -> Seq<Seq<char>> {
    trimmed_nonempty(split_on(text, blank_line()))
}

/// Greedy packing of paragraphs, separated by a blank line; a paragraph longer
/// than `max` is split at sentence ends.
pub open spec fn paragraph_state(ps: Seq<Seq<char>>, max: nat) -> (Seq<Seq<char>>, Seq<char>)
    decreases ps.len(),
{
    if ps.len() == 0 {
        (Seq::empty(), Seq::empty())
    } else {
        let st = paragraph_state(ps.drop_last(), max);
        let p = ps.last();
        if p.len() > max {
            (flush(st) + long_paragraph_chunks(p, max), Seq::empty())
        } else {
            pack(st.0, st.1, p, blank_line(), max)
        }
    }
}

/// The chunk limit actually used: at least 32 characters.
pub open spec fn effective_max(max_chars: nat) -> nat {
    if max_chars < 32 {
        32
    } else {
        max_chars
    }
}

/// The chunks that `chunk_for_tts` returns.
pub open spec fn tts_chunks(text: Seq<char>, max_chars: nat) -> Seq<Seq<char>> {
    flush(paragraph_state(paragraphs(text), effective_max(max_chars)))
}

// ---------------------------------------------------------------------------
// Lemmas for the definitions
// ---------------------------------------------------------------------------

pub proof fn lemma_trim_start_len(s: Seq<char>)
    ensures
        trim_start(s).len() <= s.len(),
    decreases s.len(),
{
    if s.len() > 0 && is_ws(s[0]) {
        lemma_trim_start_len(s.drop_first());
    }
}

pub proof fn lemma_sentence_end_shift(s: Seq<char>, a: int, k: int)
    requires
        0 <= a <= s.len(),
        0 <= k,
    ensures
        ends_sentence_at(s.skip(a), k) == ends_sentence_at(s, k + a),
{
    let t = s.skip(a);
    if 0 <= k < t.len() {
        assert(t[k] == s[k + a]);
        if k + 1 < t.len() {
            assert(t[k + 1] == s[k + a + 1]);
        }
    }
}

/// The characterisation of `first_sentence_end` by its position.
pub proof fn lemma_first_sentence_end(s: Seq<char>)
    ensures
        match first_sentence_end(s) {
            Some(m) => ends_sentence_at(s, m) && forall|k: int| 0 <= k < m ==> !ends_sentence_at(s, k),
            None => forall|k: int| !ends_sentence_at(s, k),
        },
    decreases s.len(),
{
    if s.len() == 0 {
    } else if ends_sentence_at(s, 0) {
    } else {
        let t = s.drop_first();
        lemma_first_sentence_end(t);
        assert forall|k: int| k >= 0 implies ends_sentence_at(t, k) == ends_sentence_at(s, k + 1) by {
            assert(t =~= s.skip(1));
            lemma_sentence_end_shift(s, 1, k);
        }
        match first_sentence_end(t) {
            Some(m) => {
                assert forall|k: int| 0 <= k < m + 1 implies !ends_sentence_at(s, k) by {
                    if k > 0 {
                        assert(ends_sentence_at(t, k - 1) == ends_sentence_at(s, k));
                    }
                }
            },
            None => {
                assert forall|k: int| !ends_sentence_at(s, k) by {
                    if k > 0 {
                        assert(ends_sentence_at(t, k - 1) == ends_sentence_at(s, k));
                    }
                }
            },
        }
    }
}

pub proof fn lemma_first_sentence_end_at(s: Seq<char>, m: int)
    requires
        ends_sentence_at(s, m),
        forall|k: int| 0 <= k < m ==> !ends_sentence_at(s, k),
    ensures
        first_sentence_end(s) == Some(m),
{
    lemma_first_sentence_end(s);
    match first_sentence_end(s) {
        Some(m2) => {
            if m2 < m {
                assert(!ends_sentence_at(s, m2));
            }
            if m < m2 {
                assert(!ends_sentence_at(s, m));
            }
        },
        None => {
            assert(!ends_sentence_at(s, m));
        },
    }
}

pub proof fn lemma_first_sentence_end_none(s: Seq<char>)
    requires
        forall|k: int| 0 <= k < s.len() ==> !ends_sentence_at(s, k),
    ensures
        first_sentence_end(s) is None,
{
    lemma_first_sentence_end(s);
    if let Some(m) = first_sentence_end(s) {
        assert(ends_sentence_at(s, m));
    }
}

/// Appending a piece that trims to nothing leaves `trimmed_nonempty` unchanged.
pub proof fn lemma_trimmed_nonempty_push(parts: Seq<Seq<char>>, p: Seq<char>)
    ensures
        trimmed_nonempty(parts.push(p)) == (if trim(p).len() > 0 {
            trimmed_nonempty(parts).push(trim(p))
        } else {
            trimmed_nonempty(parts)
        }),
{
    assert(parts.push(p).drop_last() =~= parts);
}

// ---------------------------------------------------------------------------
// Executable code
// ---------------------------------------------------------------------------

/// One greedy packing step (see `pack`).
fn pack_into(done: &mut Vec<Vec<char>>, cur: &mut Vec<char>, item: Vec<char>, sep: &Vec<char>, max: usize)
    ensures
        (views(final(done)@), final(cur)@) == pack(views(old(done)@), old(cur)@, item@, sep@, max as nat),
{
    let over = if cur.len() == 0 {
        false
    } else {
        match cur.len().checked_add(sep.len()) {
            None => true,
            Some(t) => match t.checked_add(item.len()) {
                None => true,
                Some(u) => u > max,
            },
        }
    };
    let ghost od = done@;
    if over {
        let mut finished = item;
        std::mem::swap(cur, &mut finished);
        done.push(finished);
        assert(views(done@) =~= views(od).push(old(cur)@));
    } else if cur.len() == 0 {
        *cur = item;
    } else {
        append_chars(cur, sep);
        append_chars(cur, &item);
    }
}

/// Finishes the current chunk (see `flush`).
fn flush_into(done: &mut Vec<Vec<char>>, cur: Vec<char>)
    ensures
        views(final(done)@) == flush((views(old(done)@), cur@)),
{
    let ghost od = done@;
    if cur.len() > 0 {
        done.push(cur);
        assert(views(done@) =~= views(od).push(cur@));
    }
}

/// Appends all chunks of `more` to `done`.
fn extend_chunks(done: &mut Vec<Vec<char>>, more: Vec<Vec<char>>)
    ensures
        views(final(done)@) == views(old(done)@) + views(more@),
{
    let mut more = more;
    let ghost od = done@;
    let ghost m = more@;
    done.append(&mut more);
    assert(views(done@) =~= views(od) + views(m));
}

/// Splits text after sentence-ending punctuation that is followed by whitespace
/// or the end of the text.
fn split_sentences(chars: &Vec<char>) -> (r: Vec<Vec<char>>)
    ensures
        views(r@) == sentences(chars@),
        r@.len() > 0,
        trim(chars@).len() == 0 ==> views(r@) == seq![chars@],
        trim(chars@).len() > 0 ==> forall|i: int|
            0 <= i < r@.len() ==> tidy(#[trigger] views(r@)[i]) && trim(views(r@)[i]) == views(r@)[i],
        trim(chars@).len() > 0 ==> crate::wrap_laws::ends_terminated(views(r@)),
        crate::text_laws::all_words(views(r@)) == words(chars@),
{
    let n = chars.len();
    let mut out: Vec<Vec<char>> = Vec::new();
    let mut start: usize = 0;
    let mut i: usize = 0;
    let ghost mut raw: Seq<Seq<char>> = Seq::empty();
    assert(chars@.skip(0) =~= chars@);
    while i < n
        invariant
            n == chars@.len(),
            start <= i <= n,
            sentence_pieces(chars@) == raw + sentence_pieces(chars@.skip(start as int)),
            views(out@) == trimmed_nonempty(raw),
            forall|k: int| start <= k < i ==> !ends_sentence_at(chars@, k),
        decreases n - i,
    {
        let c = chars[i];
        let is_end = (c == '.' || c == '!' || c == '?') && (i + 1 >= n || is_whitespace(chars[i + 1]));
        if is_end {
            let end = i + 1;
            let (a, b) = trim_bounds(chars, start, end);
            let ghost piece = chars@.subrange(start as int, end as int);
            let ghost old_out = out@;
            if a < b {
                out.push(slice_vec(chars, a, b));
            }
            let mut j = end;
            while j < n && is_whitespace(chars[j])
                invariant
                    n == chars@.len(),
                    end <= j <= n,
                    forall|k: int| end <= k < j ==> is_ws(#[trigger] chars@[k]),
                decreases n - j,
            {
                j += 1;
            }
            proof {
                let t = chars@.skip(start as int);
                assert(ends_sentence_at(chars@, i as int));
                lemma_sentence_end_shift(chars@, start as int, i - start);
                assert forall|k: int| 0 <= k < i - start implies !ends_sentence_at(t, k) by {
                    lemma_sentence_end_shift(chars@, start as int, k);
                }
                lemma_first_sentence_end_at(t, i - start);
                assert(t.take(i - start + 1) =~= piece);
                let u = chars@.skip(end as int);
                assert forall|k: int| 0 <= k < j - end implies is_ws(#[trigger] u[k]) by {
                    assert(u[k] == chars@[k + end]);
                }
                if j < n {
                    assert(u[j - end] == chars@[j as int]);
                }
                lemma_trim_start_at(u, j - end);
                assert(t.skip(i - start + 1) =~= u);
                assert(u.skip(j - end) =~= chars@.skip(j as int));
                lemma_trimmed_nonempty_push(raw, piece);
                if a < b {
                    assert(views(out@) =~= views(old_out).push(trim(piece)));
                }
                assert(raw + sentence_pieces(t) =~= raw.push(piece) + sentence_pieces(chars@.skip(j as int)));
                raw = raw.push(piece);
            }
            start = j;
            i = j;
        } else {
            proof {
                if ends_sentence_at(chars@, i as int) {
                    assert(is_terminator(chars@[i as int]));
                }
            }
            i += 1;
        }
    }
    proof {
        let t = chars@.skip(start as int);
        assert forall|k: int| 0 <= k < t.len() implies !ends_sentence_at(t, k) by {
            lemma_sentence_end_shift(chars@, start as int, k);
        }
        lemma_first_sentence_end_none(t);
        lemma_trimmed_nonempty_push(raw, t);
        assert(raw + sentence_pieces(t) =~= raw.push(t));
    }
    let ghost old_out = out@;
    if start < n {
        let (a, b) = trim_bounds(chars, start, n);
        if a < b {
            out.push(slice_vec(chars, a, b));
        }
        proof {
            assert(chars@.subrange(start as int, n as int) =~= chars@.skip(start as int));
            assert(views(out@) =~= trimmed_nonempty(raw.push(chars@.skip(start as int))));
        }
    } else {
        proof {
            let t = chars@.skip(start as int);
            assert(t.len() == 0);
            assert(trim_start(t) == t);
            assert(trim(t).len() == 0);
        }
    }
    if out.len() == 0 {
        out.push(copy_chars(chars));
        assert(views(out@) =~= seq![chars@]);
    }
    proof {
        crate::wrap_laws::lemma_sentences_law(chars@);
    }
    out
}

/// Packs the words of `text` into lines of at most `max` characters.
fn hard_wrap(text: &Vec<char>, max: usize) -> (r: Vec<Vec<char>>)
    ensures
        views(r@) == hard_wrapped(text@, max as nat),
        join(views(r@), space()) == join(words(text@), space()),
        crate::text_laws::all_words(views(r@)) == words(text@),
        forall|i: int| 0 <= i < r@.len() ==> good_chunk(#[trigger] views(r@)[i], max as nat),
        crate::wrap_laws::greedy_lines(views(r@), max as nat),
{
    let ws = words_chars(text);
    let sep: Vec<char> = vec![' '];
    assert(sep@ =~= space());
    let mut done: Vec<Vec<char>> = Vec::new();
    let mut cur: Vec<char> = Vec::new();
    let mut i: usize = 0;
    assert(views(ws@).take(0) =~= Seq::<Seq<char>>::empty());
    assert(views(done@) =~= Seq::<Seq<char>>::empty());
    while i < ws.len()
        invariant
            i <= ws@.len(),
            sep@ == space(),
            (views(done@), cur@) == wrap_state(views(ws@).take(i as int), max as nat),
        decreases ws@.len() - i,
    {
        let item = copy_chars(&ws[i]);
        pack_into(&mut done, &mut cur, item, &sep, max);
        proof {
            let w = views(ws@);
            assert(w.take(i + 1).drop_last() =~= w.take(i as int));
            assert(w.take(i + 1).last() == ws@[i as int]@);
        }
        i += 1;
    }
    assert(views(ws@).take(ws@.len() as int) =~= views(ws@));
    flush_into(&mut done, cur);
    proof {
        crate::wrap_laws::lemma_hard_wrap_law(text@, max as nat);
    }
    done
}

/// Splits a paragraph longer than `max` at sentence ends, hard-wrapping
/// sentences that are themselves too long.
fn split_long_paragraph(para: &Vec<char>, max: usize) -> (r: Vec<Vec<char>>)
    ensures
        views(r@) == long_paragraph_chunks(para@, max as nat),
{
    let ss = split_sentences(para);
    let sep: Vec<char> = vec![' '];
    assert(sep@ =~= space());
    let mut done: Vec<Vec<char>> = Vec::new();
    let mut cur: Vec<char> = Vec::new();
    let mut i: usize = 0;
    assert(views(ss@).take(0) =~= Seq::<Seq<char>>::empty());
    assert(views(done@) =~= Seq::<Seq<char>>::empty());
    while i < ss.len()
        invariant
            i <= ss@.len(),
            sep@ == space(),
            (views(done@), cur@) == sentence_state(views(ss@).take(i as int), max as nat),
        decreases ss@.len() - i,
    {
        let s = trimmed(&ss[i]);
        if s.len() == 0 {
        } else if s.len() > max {
            let mut finished: Vec<char> = Vec::new();
            std::mem::swap(&mut cur, &mut finished);
            flush_into(&mut done, finished);
            let wrapped = hard_wrap(&s, max);
            extend_chunks(&mut done, wrapped);
        } else {
            pack_into(&mut done, &mut cur, s, &sep, max);
        }
        proof {
            let w = views(ss@);
            assert(w.take(i + 1).drop_last() =~= w.take(i as int));
            assert(w.take(i + 1).last() == ss@[i as int]@);
        }
        i += 1;
    }
    assert(views(ss@).take(ss@.len() as int) =~= views(ss@));
    flush_into(&mut done, cur);
    done
}

/// Split long text into chunks suitable for TTS models.
///
/// Prefers paragraph and sentence boundaries so speech cadence stays natural.
pub fn chunk_for_tts(text: &str, max_chars: usize) -> (r: Vec<String>)
    ensures
        string_views(r@) == tts_chunks(text@, max_chars as nat),
{
    let max = if max_chars < 32 { 32 } else { max_chars };
    let chars = chars_of(text);
    let sep: Vec<char> = vec!['\n', '\n'];
    assert(sep@ =~= blank_line());
    let parts = split_chars(&chars, &sep);
    let paras = trim_each_nonempty(&parts);
    let mut done: Vec<Vec<char>> = Vec::new();
    let mut cur: Vec<char> = Vec::new();
    let mut i: usize = 0;
    assert(views(paras@).take(0) =~= Seq::<Seq<char>>::empty());
    assert(views(done@) =~= Seq::<Seq<char>>::empty());
    while i < paras.len()
        invariant
            i <= paras@.len(),
            sep@ == blank_line(),
            max == effective_max(max_chars as nat),
            (views(done@), cur@) == paragraph_state(views(paras@).take(i as int), max as nat),
        decreases paras@.len() - i,
    {
        let p = copy_chars(&paras[i]);
        if p.len() > max {
            let mut finished: Vec<char> = Vec::new();
            std::mem::swap(&mut cur, &mut finished);
            flush_into(&mut done, finished);
            let pieces = split_long_paragraph(&p, max);
            extend_chunks(&mut done, pieces);
        } else {
            pack_into(&mut done, &mut cur, p, &sep, max);
        }
        proof {
            let w = views(paras@);
            assert(w.take(i + 1).drop_last() =~= w.take(i as int));
            assert(w.take(i + 1).last() == paras@[i as int]@);
        }
        i += 1;
    }
    assert(views(paras@).take(paras@.len() as int) =~= views(paras@));
    flush_into(&mut done, cur);
    strings_of(&done)
}

// ---------------------------------------------------------------------------
// Whitespace normalisation and HTML
// ---------------------------------------------------------------------------

/// A blank: space or tab (the class `[ \t]`).
pub open spec fn is_blank(c: char) -> bool {
    c == ' ' || c == '\t'
}

/// Length of the leading run of characters satisfying `member`.
pub open spec fn run_len(s: Seq<char>, member: spec_fn(char) -> bool) -> nat
    decreases s.len(),
{
    if s.len() > 0 && member(s[0]) {
        1 + run_len(s.drop_first(), member)
    } else {
        0
    }
}

pub proof fn lemma_run_len(s: Seq<char>, member: spec_fn(char) -> bool)
    ensures
        run_len(s, member) <= s.len(),
        s.len() > 0 && member(s[0]) ==> run_len(s, member) >= 1,
        forall|i: int| 0 <= i < run_len(s, member) ==> member(#[trigger] s[i]),
        run_len(s, member) < s.len() ==> !member(s[run_len(s, member) as int]),
    decreases s.len(),
{
    if s.len() > 0 && member(s[0]) {
        lemma_run_len(s.drop_first(), member);
        assert forall|i: int| 0 <= i < run_len(s, member) implies member(#[trigger] s[i]) by {
            if i > 0 {
                assert(s[i] == s.drop_first()[i - 1]);
            }
        }
    }
}

/// Every maximal run of `member` characters of length at least `min` replaced by
/// `rep`: what a regex replacement of `class{min,}` does, matches being found
/// leftmost and greedy.
pub open spec fn runs_replaced(s: Seq<char>, member: spec_fn(char) -> bool, min: nat, rep: Seq<char>) -> Seq<char>
    decreases s.len(),
{
    if s.len() == 0 {
        Seq::empty()
    } else if member(s[0]) {
        proof {
            lemma_run_len(s, member);
        }
        let k = run_len(s, member) as int;
        (if k >= min {
            rep
        } else {
            s.take(k)
        }) + runs_replaced(s.skip(k), member, min, rep)
    } else {
        seq![s[0]] + runs_replaced(s.drop_first(), member, min, rep)
    }
}

/// `regex::Regex::replace_all` on the two patterns that whitespace
/// normalisation uses: `[ \t]+` (runs of blanks) and `\n{3,}` (runs of three or
/// more newlines). The contract states, for each pattern, that every maximal run
/// that the pattern matches is replaced by the replacement text, which is what
/// the crate documents for a leftmost-first, greedy search.
#[verifier::external_body]
fn regex_replace_all(pattern: &str, text: &str, replacement: &str) -> (r: String)
    requires
        (pattern@ == "[ \t]+"@ && replacement@ == space()) || (pattern@ == "\n{3,}"@
            && replacement@ == blank_line()),
    ensures
        pattern@ == "[ \t]+"@ ==> r@ == runs_replaced(text@, |c: char| is_blank(c), 1, replacement@),
        pattern@ == "\n{3,}"@ ==> r@ == runs_replaced(text@, |c: char| c == '\n', 3, replacement@),
{
    regex::Regex::new(pattern).expect("valid regex").replace_all(text, replacement).into_owned()
}

/// Carriage returns turned into line feeds: first `\r\n`, then any lone `\r`.
pub open spec fn newlines_unified(s: Seq<char>) -> Seq<char> {
    replaced(replaced(s, seq!['\r', '\n'], seq!['\n']), seq!['\r'], seq!['\n'])
}

/// The text that `normalize_whitespace` returns: newlines unified, runs of
/// blanks collapsed to one space, runs of three or more newlines cut to two,
/// then every line trimmed, empty lines dropped, and the remaining lines joined
/// by blank lines.
pub open spec fn normalized(text: Seq<char>) -> Seq<char> {
    let collapsed = runs_replaced(
        runs_replaced(newlines_unified(text), |c: char| is_blank(c), 1, space()),
        |c: char| c == '\n',
        3,
        blank_line(),
    );
    join(trimmed_nonempty(split_on(collapsed, seq!['\n'])), blank_line())
}

/// Collapse redundant whitespace while preserving paragraph breaks.
pub fn normalize_whitespace(text: &str) -> (r: String)
    ensures
        r@ == normalized(text@),
{
    let v = chars_of(text);
    let crlf: Vec<char> = vec!['\r', '\n'];
    let cr: Vec<char> = vec!['\r'];
    let lf: Vec<char> = vec!['\n'];
    assert(crlf@ =~= seq!['\r', '\n']);
    assert(cr@ =~= seq!['\r']);
    assert(lf@ =~= seq!['\n']);
    let v1 = replace_chars(&v, &crlf, &lf);
    let v2 = replace_chars(&v1, &cr, &lf);
    let s2 = string_of(&v2);
    proof {
        reveal_strlit(" ");
        reveal_strlit("\n\n");
        assert(" "@ =~= space());
        assert("\n\n"@ =~= blank_line());
    }
    let s3 = regex_replace_all("[ \t]+", s2.as_str(), " ");
    let s4 = regex_replace_all("\n{3,}", s3.as_str(), "\n\n");
    let v4 = chars_of(s4.as_str());
    let lines = split_chars(&v4, &lf);
    let kept = trim_each_nonempty(&lines);
    let blank: Vec<char> = vec!['\n', '\n'];
    assert(blank@ =~= blank_line());
    let joined = join_chars(&kept, &blank);
    string_of(&joined)
}

/// The character range of the contents of the first `<body ...>` element,
/// compared without regard to ASCII case: from just after the `>` that closes
/// the opening tag to the first `</body` after it.
pub open spec fn body_range(html: Seq<char>) -> Option<(int, int)> {
    let lower = lowered(html);
    match first_match(lower, seq!['<', 'b', 'o', 'd', 'y']) {
        None => None,
        Some(start) => {
            let after = start + 5;
            match first_match(lower.skip(after), seq!['>']) {
                None => None,
                Some(gt) => {
                    let open_end = gt + after + 1;
                    match first_match(lower.skip(open_end), seq!['<', '/', 'b', 'o', 'd', 'y']) {
                        None => None,
                        Some(e) => Some((open_end, e + open_end)),
                    }
                },
            }
        },
    }
}

/// The body contents when there is a body element, else the whole document.
pub open spec fn body_or_all(html: Seq<char>) -> Seq<char> {
    match body_range(html) {
        Some(r) => html.subrange(r.0, r.1),
        None => html,
    }
}

/// The contents of the `<body>` element, if the document has one.
fn extract_body(html: &str) -> (r: Option<String>)
    ensures
        match r {
            Some(t) => body_range(html@) is Some && t@ == body_or_all(html@),
            None => body_range(html@) is None,
        },
{
    let chars = chars_of(html);
    let lower = lower_chars(&chars);
    let ghost low = lowered(html@);
    let open_pat: Vec<char> = vec!['<', 'b', 'o', 'd', 'y'];
    let gt_pat: Vec<char> = vec!['>'];
    let close_pat: Vec<char> = vec!['<', '/', 'b', 'o', 'd', 'y'];
    assert(open_pat@ =~= seq!['<', 'b', 'o', 'd', 'y']);
    assert(gt_pat@ =~= seq!['>']);
    assert(close_pat@ =~= seq!['<', '/', 'b', 'o', 'd', 'y']);
    assert(lower@.skip(0) =~= lower@);
    let start = match find_from(&lower, &open_pat, 0) {
        Some(s) => s,
        None => return None,
    };
    proof {
        crate::chars::lemma_first_match(low, open_pat@);
        assert(lower@ == low);
        assert(crate::chars::occurs_at(low, open_pat@, start as int));
        assert(start + 5 <= lower@.len());
        assert(lower@.len() == lower.len());
    }
    let after = start + 5;
    let gt = match find_from(&lower, &gt_pat, after) {
        Some(g) => g,
        None => return None,
    };
    proof {
        crate::chars::lemma_first_match(low.skip(after as int), gt_pat@);
        assert(crate::chars::occurs_at(low.skip(after as int), gt_pat@, gt - after));
        assert(gt + 1 <= lower@.len());
        assert(lower@.len() == lower.len());
    }
    let open_end = gt + 1;
    let end = match find_from(&lower, &close_pat, open_end) {
        Some(e) => e,
        None => return None,
    };
    proof {
        crate::chars::lemma_first_match(low.skip(open_end as int), close_pat@);
    }
    Some(crate::chars::string_of_range(&chars, open_end, end))
}

/// A name for what `html2text::from_read` renders from an HTML document at a
/// given line width, or `None` when it reports an error.
pub uninterp spec fn html2text_rendering(html: Seq<char>, width: usize) -> Option<Seq<char>>;

/// `html2text::from_read` on the UTF-8 bytes of `html`. The contract ties the
/// outcome to `html2text_rendering` of the document and the width; what the
/// rendering is, the crate's own code decides.
#[verifier::external_body]
fn html2text_from_read(html: &str, width: usize) -> (r: Option<String>)
    ensures
        match r {
            Some(t) => html2text_rendering(html@, width) == Some(t@),
            None => html2text_rendering(html@, width) is None,
        },
{
    html2text::from_read(html.as_bytes(), width).ok()
}

/// The rendered text, or empty when rendering failed.
pub open spec fn rendered_or_empty(r: Option<Seq<char>>) -> Seq<char> {
    match r {
        Some(t) => t,
        None => Seq::empty(),
    }
}

/// The plain text that `html_to_text` returns for a given rendering of the page.
pub fn text_from_rendering(rendered: Option<String>) -> (r: String)
    ensures
        r@ == normalized(rendered_or_empty(match rendered {
            Some(t) => Some(t@),
            None => None,
        })),
{
    match rendered {
        Some(t) => normalize_whitespace(t.as_str()),
        None => {
            let e = String::new();
            normalize_whitespace(e.as_str())
        },
    }
}

/// Convert XHTML/HTML chapter markup into readable plain text.
pub fn html_to_text(html: &str) -> (r: String)
    ensures
        r@ == normalized(rendered_or_empty(html2text_rendering(body_or_all(html@), 100))),
{
    let body = extract_body(html);
    let rendered = match body {
        Some(b) => html2text_from_read(b.as_str(), 100),
        None => html2text_from_read(html, 100),
    };
    text_from_rendering(rendered)
}

// ---------------------------------------------------------------------------
// Laws of chunking: every chunk is tidy, and longer than the limit only when it
// is a single unbreakable word
// ---------------------------------------------------------------------------

/// `c` holds no whitespace.
pub open spec fn no_ws(c: Seq<char>) -> bool {
    forall|k: int| 0 <= k < c.len() ==> !is_ws(#[trigger] c[k])
}

/// `c` is non-empty and neither starts nor ends with whitespace.
pub open spec fn tidy(c: Seq<char>) -> bool {
    c.len() > 0 && !is_ws(c[0]) && !is_ws(c.last())
}

/// A chunk as chunking makes them: tidy, and within `max` characters unless it
/// is a single word.
pub open spec fn good_chunk(c: Seq<char>, max: nat) -> bool {
    tidy(c) && (c.len() <= max || no_ws(c))
}

pub open spec fn all_good(cs: Seq<Seq<char>>, max: nat) -> bool {
    forall|i: int| 0 <= i < cs.len() ==> good_chunk(#[trigger] cs[i], max)
}

pub open spec fn state_good(st: (Seq<Seq<char>>, Seq<char>), max: nat) -> bool {
    all_good(st.0, max) && (st.1.len() > 0 ==> good_chunk(st.1, max))
}

proof fn lemma_pack_good(st: (Seq<Seq<char>>, Seq<char>), item: Seq<char>, sep: Seq<char>, max: nat)
    requires
        state_good(st, max),
        good_chunk(item, max),
    ensures
        state_good(pack(st.0, st.1, item, sep, max), max),
{
    let r = pack(st.0, st.1, item, sep, max);
    if st.1.len() > 0 && st.1.len() + sep.len() + item.len() > max {
        assert forall|i: int| 0 <= i < r.0.len() implies good_chunk(#[trigger] r.0[i], max) by {
            if i < st.0.len() {
                assert(r.0[i] == st.0[i]);
            }
        }
    } else if st.1.len() == 0 {
    } else {
        let c = st.1 + sep + item;
        assert(c[0] == st.1[0]);
        assert(c.last() == item.last());
    }
}

proof fn lemma_flush_good(st: (Seq<Seq<char>>, Seq<char>), max: nat)
    requires
        state_good(st, max),
    ensures
        all_good(flush(st), max),
{
    let r = flush(st);
    if st.1.len() > 0 {
        assert forall|i: int| 0 <= i < r.len() implies good_chunk(#[trigger] r[i], max) by {
            if i < st.0.len() {
                assert(r[i] == st.0[i]);
            }
        }
    }
}

proof fn lemma_all_good_concat(a: Seq<Seq<char>>, b: Seq<Seq<char>>, max: nat)
    requires
        all_good(a, max),
        all_good(b, max),
    ensures
        all_good(a + b, max),
{
    assert forall|i: int| 0 <= i < (a + b).len() implies good_chunk(#[trigger] (a + b)[i], max) by {
        if i < a.len() {
            assert((a + b)[i] == a[i]);
        } else {
            assert((a + b)[i] == b[i - a.len()]);
        }
    }
}

/// Every word is non-empty and free of whitespace.
pub proof fn lemma_words_shape(s: Seq<char>)
    ensures
        forall|i: int| 0 <= i < words(s).len() ==> (#[trigger] words(s)[i]).len() > 0 && no_ws(words(s)[i]),
    decreases s.len(),
{
    if s.len() == 0 {
    } else if is_ws(s[0]) {
        lemma_words_shape(s.drop_first());
        assert(words(s) == words(s.drop_first()));
    } else {
        crate::chars::lemma_word_len(s);
        let k = crate::chars::word_len(s) as int;
        lemma_words_shape(s.skip(k));
        let w = words(s);
        assert(w == seq![s.take(k)] + words(s.skip(k)));
        assert(k >= 1);
        assert forall|i: int| 0 <= i < w.len() implies (#[trigger] w[i]).len() > 0 && no_ws(w[i]) by {
            if i == 0 {
                assert(w[0] == s.take(k));
                assert(w[0].len() == k);
                assert forall|j: int| 0 <= j < w[0].len() implies !is_ws(#[trigger] w[0][j]) by {
                    assert(w[0][j] == s[j]);
                }
            } else {
                assert(w[i] == words(s.skip(k))[i - 1]);
            }
        }
    }
}

/// `trim_start` keeps a suffix whose first character is not whitespace.
pub proof fn lemma_trim_start_shape(s: Seq<char>)
    ensures
        exists|k: int| 0 <= k <= s.len() && trim_start(s) == s.skip(k),
        trim_start(s).len() > 0 ==> !is_ws(trim_start(s)[0]),
    decreases s.len(),
{
    if s.len() > 0 && is_ws(s[0]) {
        lemma_trim_start_shape(s.drop_first());
        let k = choose|k: int| 0 <= k <= s.drop_first().len() && trim_start(s.drop_first()) == s.drop_first().skip(k);
        assert(s.drop_first().skip(k) =~= s.skip(k + 1));
    } else {
        assert(s.skip(0) =~= s);
    }
}

/// `trim_end` keeps a prefix whose last character is not whitespace.
pub proof fn lemma_trim_end_shape(s: Seq<char>)
    ensures
        exists|k: int| 0 <= k <= s.len() && trim_end(s) == s.take(k),
        trim_end(s).len() > 0 ==> !is_ws(trim_end(s).last()),
    decreases s.len(),
{
    if s.len() > 0 && is_ws(s.last()) {
        lemma_trim_end_shape(s.drop_last());
        let k = choose|k: int| 0 <= k <= s.drop_last().len() && trim_end(s.drop_last()) == s.drop_last().take(k);
        assert(s.drop_last().take(k) =~= s.take(k));
    } else {
        assert(s.take(s.len() as int) =~= s);
    }
}

/// A non-empty trimmed text is tidy.
pub proof fn lemma_trim_tidy(s: Seq<char>)
    ensures
        trim(s).len() > 0 ==> tidy(trim(s)),
{
    lemma_trim_start_shape(s);
    let t = trim_start(s);
    lemma_trim_end_shape(t);
    if trim(s).len() > 0 {
        let k = choose|k: int| 0 <= k <= t.len() && trim_end(t) == t.take(k);
        assert(trim(s)[0] == t[0]);
    }
}

/// Every piece kept by `trimmed_nonempty` is tidy.
pub proof fn lemma_trimmed_nonempty_tidy(parts: Seq<Seq<char>>)
    ensures
        forall|i: int| 0 <= i < trimmed_nonempty(parts).len() ==> tidy(#[trigger] trimmed_nonempty(parts)[i]),
    decreases parts.len(),
{
    if parts.len() > 0 {
        lemma_trimmed_nonempty_tidy(parts.drop_last());
        lemma_trim_tidy(parts.last());
        let r = trimmed_nonempty(parts);
        let rest = trimmed_nonempty(parts.drop_last());
        assert forall|i: int| 0 <= i < r.len() implies tidy(#[trigger] r[i]) by {
            if i < rest.len() {
                assert(r[i] == rest[i]);
            }
        }
    }
}

proof fn lemma_wrap_state_good(ws: Seq<Seq<char>>, max: nat)
    requires
        forall|i: int| 0 <= i < ws.len() ==> (#[trigger] ws[i]).len() > 0 && no_ws(ws[i]),
    ensures
        state_good(wrap_state(ws, max), max),
    decreases ws.len(),
{
    if ws.len() > 0 {
        let w = ws.drop_last();
        assert forall|i: int| 0 <= i < w.len() implies (#[trigger] w[i]).len() > 0 && no_ws(w[i]) by {
            assert(w[i] == ws[i]);
        }
        lemma_wrap_state_good(w, max);
        let item = ws.last();
        assert(ws[ws.len() - 1] == item);
        lemma_pack_good(wrap_state(w, max), item, space(), max);
    }
}

pub proof fn lemma_hard_wrapped_good(text: Seq<char>, max: nat)
    ensures
        all_good(hard_wrapped(text, max), max),
{
    lemma_words_shape(text);
    lemma_wrap_state_good(words(text), max);
    lemma_flush_good(wrap_state(words(text), max), max);
}

proof fn lemma_sentence_state_good(ss: Seq<Seq<char>>, max: nat)
    ensures
        state_good(sentence_state(ss, max), max),
    decreases ss.len(),
{
    if ss.len() > 0 {
        lemma_sentence_state_good(ss.drop_last(), max);
        let st = sentence_state(ss.drop_last(), max);
        let s = trim(ss.last());
        lemma_trim_tidy(ss.last());
        if s.len() == 0 {
        } else if s.len() > max {
            lemma_flush_good(st, max);
            lemma_hard_wrapped_good(s, max);
            lemma_all_good_concat(flush(st), hard_wrapped(s, max), max);
        } else {
            lemma_pack_good(st, s, space(), max);
        }
    }
}

proof fn lemma_paragraph_state_good(ps: Seq<Seq<char>>, max: nat)
    requires
        forall|i: int| 0 <= i < ps.len() ==> tidy(#[trigger] ps[i]),
    ensures
        state_good(paragraph_state(ps, max), max),
    decreases ps.len(),
{
    if ps.len() > 0 {
        let w = ps.drop_last();
        assert forall|i: int| 0 <= i < w.len() implies tidy(#[trigger] w[i]) by {
            assert(w[i] == ps[i]);
        }
        lemma_paragraph_state_good(w, max);
        let st = paragraph_state(w, max);
        let p = ps.last();
        assert(ps[ps.len() - 1] == p);
        if p.len() > max {
            lemma_flush_good(st, max);
            lemma_sentence_state_good(sentences(p), max);
            lemma_flush_good(sentence_state(sentences(p), max), max);
            lemma_all_good_concat(flush(st), long_paragraph_chunks(p, max), max);
        } else {
            lemma_pack_good(st, p, blank_line(), max);
        }
    }
}

/// Every chunk that `chunk_for_tts` returns is non-empty, neither starts nor
/// ends with whitespace, and holds at most `max(max_chars, 32)` characters
/// unless it is a single word with no whitespace in it.
pub proof fn lemma_chunks_tidy_and_bounded(text: Seq<char>, max_chars: nat)
    ensures
        forall|i: int|
            0 <= i < tts_chunks(text, max_chars).len() ==> {
                let c = #[trigger] tts_chunks(text, max_chars)[i];
                &&& c.len() > 0
                &&& !is_ws(c[0])
                &&& !is_ws(c.last())
                &&& (c.len() <= effective_max(max_chars) || no_ws(c))
            },
{
    let m = effective_max(max_chars);
    lemma_trimmed_nonempty_tidy(split_on(text, blank_line()));
    lemma_paragraph_state_good(paragraphs(text), m);
    lemma_flush_good(paragraph_state(paragraphs(text), m), m);
    let cs = tts_chunks(text, max_chars);
    assert forall|i: int| 0 <= i < cs.len() implies {
        let c = #[trigger] cs[i];
        &&& c.len() > 0
        &&& !is_ws(c[0])
        &&& !is_ws(c.last())
        &&& (c.len() <= m || no_ws(c))
    } by {
        assert(good_chunk(cs[i], m));
    }
}

} // verus!
