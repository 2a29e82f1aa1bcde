//! Laws of chunking: chunking keeps every word of the text, in order, and a
//! chunk is longer than the limit only when it is one word that is.
use vstd::prelude::*;
use crate::chars::{
    is_ws, trim, trim_start, trim_end, trimmed_nonempty, split_on, first_match, occurs_at, join, words,
    word_len, lemma_word_len, lemma_word_len_at, lemma_first_match, replaced,
};
use crate::text::{
    normalized, newlines_unified, runs_replaced, run_len, lemma_run_len, is_blank, tidy,
    lemma_trimmed_nonempty_tidy, lemma_trim_start_shape, lemma_trim_end_shape,
    tts_chunks, paragraphs, paragraph_state, sentence_state, wrap_state, hard_wrapped, long_paragraph_chunks,
    sentences, sentence_pieces, first_sentence_end, ends_sentence_at, lemma_first_sentence_end, pack, flush,
    space, blank_line, effective_max, no_ws, lemma_chunks_tidy_and_bounded, lemma_words_shape,
};

verus! {

/// The words of every piece, one piece after the other.
pub open spec fn all_words(cs: Seq<Seq<char>>) -> Seq<Seq<char>>
    decreases cs.len(),
{
    if cs.len() == 0 {
        Seq::empty()
    } else {
        all_words(cs.drop_last()) + words(cs.last())
    }
}

/// All characters of `w` are whitespace.
pub open spec fn all_ws(w: Seq<char>) -> bool {
    forall|k: int| 0 <= k < w.len() ==> is_ws(#[trigger] w[k])
}

// ---------------------------------------------------------------------------
// Words of concatenations
// ---------------------------------------------------------------------------

/// Concatenation at a whitespace boundary concatenates the words.
pub proof fn lemma_words_concat(a: Seq<char>, b: Seq<char>)
    requires
        a.len() == 0 || b.len() == 0 || is_ws(a.last()) || is_ws(b[0]),
    ensures
        words(a + b) == words(a) + words(b),
    decreases a.len(),
{
    if a.len() == 0 {
        assert(a + b =~= b);
    } else if is_ws(a[0]) {
        let t = a.drop_first();
        assert((a + b)[0] == a[0]);
        assert((a + b).drop_first() =~= t + b);
        if t.len() > 0 {
            assert(t.last() == a.last());
        }
        lemma_words_concat(t, b);
    } else {
        lemma_word_len(a);
        let k = word_len(a) as int;
        let s = a + b;
        assert(s[0] == a[0]);
        // the first word of `a + b` is the first word of `a`
        assert forall|i: int| 0 <= i < k implies !is_ws(#[trigger] s[i]) by {
            assert(s[i] == a[i]);
        }
        if k < a.len() {
            assert(s[k] == a[k]);
        } else {
            if b.len() > 0 {
                assert(a.last() == a[k - 1]);
                assert(s[k] == b[0]);
            }
        }
        lemma_word_len_at(s, k);
        lemma_word_len(s);
        assert(s.take(k) =~= a.take(k));
        assert(s.skip(k) =~= a.skip(k) + b);
        let t = a.skip(k);
        if t.len() > 0 {
            assert(t.last() == a.last());
        }
        lemma_words_concat(t, b);
        assert(words(s) == seq![s.take(k)] + words(s.skip(k)));
        assert(words(a) == seq![a.take(k)] + words(a.skip(k)));
        assert(words(s) =~= words(a) + words(b));
    }
}

/// Whitespace has no words.
pub proof fn lemma_words_of_ws(w: Seq<char>)
    requires
        all_ws(w),
    ensures
        words(w) == Seq::<Seq<char>>::empty(),
    decreases w.len(),
{
    if w.len() > 0 {
        assert(is_ws(w[0]));
        let t = w.drop_first();
        assert forall|k: int| 0 <= k < t.len() implies is_ws(#[trigger] t[k]) by {
            assert(t[k] == w[k + 1]);
        }
        lemma_words_of_ws(t);
    }
}

/// A whitespace separator between two texts separates their words.
pub proof fn lemma_words_sep(a: Seq<char>, sep: Seq<char>, b: Seq<char>)
    requires
        sep.len() > 0,
        all_ws(sep),
    ensures
        words(a + sep + b) == words(a) + words(b),
{
    assert(is_ws(sep[0]));
    assert(is_ws(sep.last()));
    lemma_words_concat(a, sep);
    assert((a + sep).last() == sep.last());
    lemma_words_concat(a + sep, b);
    lemma_words_of_ws(sep);
    assert(words(a) + Seq::<Seq<char>>::empty() =~= words(a));
}

/// Trimming keeps the words.
pub proof fn lemma_words_trim(s: Seq<char>)
    ensures
        words(trim(s)) == words(s),
{
    lemma_words_trim_start(s);
    lemma_words_trim_end(trim_start(s));
}

proof fn lemma_words_trim_start(s: Seq<char>)
    ensures
        words(trim_start(s)) == words(s),
    decreases s.len(),
{
    if s.len() > 0 && is_ws(s[0]) {
        lemma_words_trim_start(s.drop_first());
    }
}

proof fn lemma_words_trim_end(s: Seq<char>)
    ensures
        words(trim_end(s)) == words(s),
    decreases s.len(),
{
    if s.len() > 0 && is_ws(s.last()) {
        let t = s.drop_last();
        lemma_words_trim_end(t);
        let c = seq![s.last()];
        assert(t + c =~= s);
        lemma_words_concat(t, c);
        lemma_words_of_ws(c);
        assert(words(t) + Seq::<Seq<char>>::empty() =~= words(t));
    }
}

// ---------------------------------------------------------------------------
// Words of sequences of pieces
// ---------------------------------------------------------------------------

pub proof fn lemma_all_words_single(x: Seq<char>)
    ensures
        all_words(seq![x]) == words(x),
{
    let one = seq![x];
    assert(one.drop_last() =~= Seq::<Seq<char>>::empty());
    assert(one.last() == x);
    assert(all_words(Seq::<Seq<char>>::empty()) == Seq::<Seq<char>>::empty());
    assert(all_words(one.drop_last()) == Seq::<Seq<char>>::empty());
    assert(all_words(one) == all_words(one.drop_last()) + words(one.last()));
    assert(Seq::<Seq<char>>::empty() + words(x) =~= words(x));
}

pub proof fn lemma_all_words_push(cs: Seq<Seq<char>>, c: Seq<char>)
    ensures
        all_words(cs.push(c)) == all_words(cs) + words(c),
{
    assert(cs.push(c).drop_last() =~= cs);
}

pub proof fn lemma_all_words_concat(a: Seq<Seq<char>>, b: Seq<Seq<char>>)
    ensures
        all_words(a + b) == all_words(a) + all_words(b),
    decreases b.len(),
{
    if b.len() == 0 {
        assert(a + b =~= a);
        assert(all_words(a) + Seq::<Seq<char>>::empty() =~= all_words(a));
    } else {
        lemma_all_words_concat(a, b.drop_last());
        assert((a + b).drop_last() =~= a + b.drop_last());
        assert((a + b).last() == b.last());
        assert(all_words(a + b) =~= all_words(a) + all_words(b));
    }
}

/// Joining with a whitespace separator keeps the words of the pieces.
pub proof fn lemma_words_join(parts: Seq<Seq<char>>, sep: Seq<char>)
    requires
        sep.len() > 0,
        all_ws(sep),
    ensures
        words(join(parts, sep)) == all_words(parts),
    decreases parts.len(),
{
    if parts.len() == 0 {
    } else if parts.len() == 1 {
        assert(parts =~= seq![parts[0]]);
        lemma_all_words_single(parts[0]);
    } else {
        lemma_words_join(parts.drop_last(), sep);
        lemma_words_sep(join(parts.drop_last(), sep), sep, parts.last());
    }
}

proof fn lemma_join_front(x: Seq<char>, rest: Seq<Seq<char>>, sep: Seq<char>)
    requires
        rest.len() > 0,
    ensures
        join(seq![x] + rest, sep) == x + sep + join(rest, sep),
    decreases rest.len(),
{
    let all = seq![x] + rest;
    if rest.len() == 1 {
        assert(all.drop_last() =~= seq![x]);
        assert(all.last() == rest[0]);
        assert(seq![x].len() == 1);
        assert(join(seq![x], sep) == seq![x][0]);
        assert(join(rest, sep) == rest[0]);
        assert(join(all, sep) == join(all.drop_last(), sep) + sep + all.last());
    } else {
        lemma_join_front(x, rest.drop_last(), sep);
        assert(all.drop_last() =~= seq![x] + rest.drop_last());
        assert(all.last() == rest.last());
        assert(join(all, sep) =~= x + sep + join(rest, sep));
    }
}

proof fn lemma_split_nonempty(s: Seq<char>, pat: Seq<char>)
    ensures
        split_on(s, pat).len() > 0,
    decreases s.len(),
{
    if pat.len() > 0 {
        if let Some(i) = first_match(s, pat) {
            lemma_first_match(s, pat);
            lemma_split_nonempty(s.skip(i + pat.len()), pat);
        }
    }
}

/// Joining the pieces of a split with the pattern gives the text back.
pub proof fn lemma_join_split(s: Seq<char>, pat: Seq<char>)
    requires
        pat.len() > 0,
    ensures
        join(split_on(s, pat), pat) == s,
    decreases s.len(),
{
    match first_match(s, pat) {
        None => {},
        Some(i) => {
            lemma_first_match(s, pat);
            let rest = s.skip(i + pat.len());
            lemma_join_split(rest, pat);
            lemma_split_nonempty(rest, pat);
            lemma_join_front(s.take(i), split_on(rest, pat), pat);
            assert(s.subrange(i, i + pat.len()) == pat);
            assert(s.take(i) + pat + rest =~= s);
        },
    }
}

/// Trimming the pieces and dropping empty ones keeps the words.
pub proof fn lemma_all_words_trimmed_nonempty(parts: Seq<Seq<char>>)
    ensures
        all_words(trimmed_nonempty(parts)) == all_words(parts),
    decreases parts.len(),
{
    if parts.len() > 0 {
        lemma_all_words_trimmed_nonempty(parts.drop_last());
        let p = parts.last();
        lemma_words_trim(p);
        let rest = trimmed_nonempty(parts.drop_last());
        if trim(p).len() > 0 {
            lemma_all_words_push(rest, trim(p));
        } else {
            assert(trim(p) =~= Seq::<char>::empty());
            assert(words(Seq::<char>::empty()) == Seq::<Seq<char>>::empty());
            assert(all_words(parts) =~= all_words(parts.drop_last()));
        }
    }
}

proof fn lemma_blank_line_ws()
    ensures
        blank_line().len() > 0,
        all_ws(blank_line()),
        space().len() > 0,
        all_ws(space()),
{
}

/// The paragraphs hold the words of the text.
pub proof fn lemma_all_words_paragraphs(text: Seq<char>)
    ensures
        all_words(paragraphs(text)) == words(text),
{
    lemma_blank_line_ws();
    lemma_all_words_trimmed_nonempty(split_on(text, blank_line()));
    lemma_join_split(text, blank_line());
    lemma_words_join(split_on(text, blank_line()), blank_line());
}

/// The sentence pieces hold the words of the text.
pub proof fn lemma_all_words_sentence_pieces(s: Seq<char>)
    ensures
        all_words(sentence_pieces(s)) == words(s),
    decreases s.len(),
{
    match first_sentence_end(s) {
        None => {
            lemma_all_words_single(s);
        },
        Some(i) => {
            lemma_first_sentence_end(s);
            crate::text::lemma_trim_start_len(s.skip(i + 1));
            let head = s.take(i + 1);
            let tail = s.skip(i + 1);
            let rest = trim_start(tail);
            lemma_all_words_sentence_pieces(rest);
            assert(ends_sentence_at(s, i));
            if tail.len() > 0 {
                assert(tail[0] == s[i + 1]);
            }
            assert(head + tail =~= s);
            lemma_words_concat(head, tail);
            lemma_words_trim_start(tail);
            lemma_all_words_concat(seq![head], sentence_pieces(rest));
            lemma_all_words_single(head);
        },
    }
}

/// The sentences hold the words of the text.
pub proof fn lemma_all_words_sentences(p: Seq<char>)
    ensures
        all_words(sentences(p)) == words(p),
{
    lemma_all_words_sentence_pieces(p);
    lemma_all_words_trimmed_nonempty(sentence_pieces(p));
    if trimmed_nonempty(sentence_pieces(p)).len() == 0 {
        lemma_all_words_single(p);
        assert(all_words(trimmed_nonempty(sentence_pieces(p))) == Seq::<Seq<char>>::empty());
    }
}

// ---------------------------------------------------------------------------
// Words through greedy packing
// ---------------------------------------------------------------------------

/// The words of a packing state: finished chunks, then the current one.
pub open spec fn state_words(st: (Seq<Seq<char>>, Seq<char>)) -> Seq<Seq<char>> {
    all_words(st.0) + words(st.1)
}

proof fn lemma_pack_words(st: (Seq<Seq<char>>, Seq<char>), item: Seq<char>, sep: Seq<char>, max: nat)
    requires
        sep.len() > 0,
        all_ws(sep),
    ensures
        state_words(pack(st.0, st.1, item, sep, max)) == state_words(st) + words(item),
{
    let (done, cur) = st;
    if cur.len() > 0 && cur.len() + sep.len() + item.len() > max {
        lemma_all_words_push(done, cur);
    } else if cur.len() == 0 {
        assert(words(cur) == Seq::<Seq<char>>::empty());
        assert(all_words(done) + Seq::<Seq<char>>::empty() =~= all_words(done));
    } else {
        lemma_words_sep(cur, sep, item);
    }
    assert(state_words(pack(st.0, st.1, item, sep, max)) =~= state_words(st) + words(item));
}

proof fn lemma_flush_words(st: (Seq<Seq<char>>, Seq<char>))
    ensures
        all_words(flush(st)) == state_words(st),
{
    if st.1.len() > 0 {
        lemma_all_words_push(st.0, st.1);
    } else {
        assert(words(st.1) == Seq::<Seq<char>>::empty());
        assert(all_words(st.0) + Seq::<Seq<char>>::empty() =~= all_words(st.0));
    }
}

proof fn lemma_empty_state_words()
    ensures
        state_words((Seq::<Seq<char>>::empty(), Seq::<char>::empty())) == Seq::<Seq<char>>::empty(),
{
    assert(words(Seq::<char>::empty()) == Seq::<Seq<char>>::empty());
    assert(Seq::<Seq<char>>::empty() + Seq::<Seq<char>>::empty() =~= Seq::<Seq<char>>::empty());
}

/// A word is its own only word.
pub proof fn lemma_words_of_word(w: Seq<char>)
    requires
        w.len() > 0,
        no_ws(w),
    ensures
        words(w) == seq![w],
{
    lemma_word_len_at(w, w.len() as int);
    assert(w.take(w.len() as int) =~= w);
    assert(w.skip(w.len() as int) =~= Seq::<char>::empty());
    assert(words(Seq::<char>::empty()) == Seq::<Seq<char>>::empty());
    assert(seq![w] + Seq::<Seq<char>>::empty() =~= seq![w]);
}

proof fn lemma_wrap_state_words(ws: Seq<Seq<char>>, max: nat)
    requires
        forall|i: int| 0 <= i < ws.len() ==> (#[trigger] ws[i]).len() > 0 && no_ws(ws[i]),
    ensures
        state_words(wrap_state(ws, max)) == ws,
    decreases ws.len(),
{
    if ws.len() == 0 {
        lemma_empty_state_words();
    } else {
        let w = ws.drop_last();
        assert forall|i: int| 0 <= i < w.len() implies (#[trigger] w[i]).len() > 0 && no_ws(w[i]) by {
            assert(w[i] == ws[i]);
        }
        lemma_wrap_state_words(w, max);
        lemma_blank_line_ws();
        lemma_pack_words(wrap_state(w, max), ws.last(), space(), max);
        assert(ws[ws.len() - 1] == ws.last());
        lemma_words_of_word(ws.last());
        assert(w + seq![ws.last()] =~= ws);
    }
}

/// Hard wrapping keeps the words.
pub proof fn lemma_hard_wrapped_words(text: Seq<char>, max: nat)
    ensures
        all_words(hard_wrapped(text, max)) == words(text),
{
    lemma_words_shape(text);
    lemma_wrap_state_words(words(text), max);
    lemma_flush_words(wrap_state(words(text), max));
}

proof fn lemma_sentence_state_words(ss: Seq<Seq<char>>, max: nat)
    ensures
        state_words(sentence_state(ss, max)) == all_words(ss),
    decreases ss.len(),
{
    if ss.len() == 0 {
        lemma_empty_state_words();
    } else {
        lemma_sentence_state_words(ss.drop_last(), max);
        let st = sentence_state(ss.drop_last(), max);
        let s = trim(ss.last());
        lemma_words_trim(ss.last());
        if s.len() == 0 {
            assert(s =~= Seq::<char>::empty());
            assert(words(Seq::<char>::empty()) == Seq::<Seq<char>>::empty());
            assert(all_words(ss) =~= all_words(ss.drop_last()));
        } else if s.len() > max {
            lemma_flush_words(st);
            lemma_hard_wrapped_words(s, max);
            lemma_all_words_concat(flush(st), hard_wrapped(s, max));
            assert(words(Seq::<char>::empty()) == Seq::<Seq<char>>::empty());
            assert(state_words(sentence_state(ss, max)) =~= all_words(ss));
        } else {
            lemma_blank_line_ws();
            lemma_pack_words(st, s, space(), max);
        }
    }
}

/// Splitting a long paragraph keeps its words.
pub proof fn lemma_long_paragraph_words(p: Seq<char>, max: nat)
    ensures
        all_words(long_paragraph_chunks(p, max)) == words(p),
{
    lemma_sentence_state_words(sentences(p), max);
    lemma_flush_words(sentence_state(sentences(p), max));
    lemma_all_words_sentences(p);
}

proof fn lemma_paragraph_state_words(ps: Seq<Seq<char>>, max: nat)
    ensures
        state_words(paragraph_state(ps, max)) == all_words(ps),
    decreases ps.len(),
{
    if ps.len() == 0 {
        lemma_empty_state_words();
    } else {
        lemma_paragraph_state_words(ps.drop_last(), max);
        let st = paragraph_state(ps.drop_last(), max);
        let p = ps.last();
        if p.len() > max {
            lemma_flush_words(st);
            lemma_long_paragraph_words(p, max);
            lemma_all_words_concat(flush(st), long_paragraph_chunks(p, max));
            assert(words(Seq::<char>::empty()) == Seq::<Seq<char>>::empty());
            assert(state_words(paragraph_state(ps, max)) =~= all_words(ps));
        } else {
            lemma_blank_line_ws();
            lemma_pack_words(st, p, blank_line(), max);
        }
    }
}

/// Chunking loses no text: the words of the chunks, read in order, are the
/// words of the input text.
pub proof fn lemma_chunks_keep_words(text: Seq<char>, max_chars: nat)
    ensures
        all_words(tts_chunks(text, max_chars)) == words(text),
{
    let m = effective_max(max_chars);
    lemma_paragraph_state_words(paragraphs(text), m);
    lemma_flush_words(paragraph_state(paragraphs(text), m));
    lemma_all_words_paragraphs(text);
}

proof fn lemma_word_in_all_words(cs: Seq<Seq<char>>, i: int, w: Seq<char>)
    requires
        0 <= i < cs.len(),
        words(cs[i]).contains(w),
    ensures
        all_words(cs).contains(w),
    decreases cs.len(),
{
    let j = choose|j: int| 0 <= j < words(cs[i]).len() && words(cs[i])[j] == w;
    if i == cs.len() - 1 {
        assert(cs.last() == cs[i]);
        let a = all_words(cs.drop_last());
        assert((a + words(cs[i]))[a.len() + j] == w);
    } else {
        assert(cs.drop_last()[i] == cs[i]);
        lemma_word_in_all_words(cs.drop_last(), i, w);
        let k = choose|k: int| 0 <= k < all_words(cs.drop_last()).len() && all_words(cs.drop_last())[k] == w;
        assert(all_words(cs)[k] == w);
    }
}

/// When no word of the text is longer than `max(max_chars, 32)` characters, no
/// chunk is either.
pub proof fn lemma_chunks_within_limit(text: Seq<char>, max_chars: nat)
    requires
        forall|i: int| 0 <= i < words(text).len() ==> (#[trigger] words(text)[i]).len() <= effective_max(max_chars),
    ensures
        forall|i: int|
            0 <= i < tts_chunks(text, max_chars).len() ==> (#[trigger] tts_chunks(text, max_chars)[i]).len()
                <= effective_max(max_chars),
{
    let cs = tts_chunks(text, max_chars);
    lemma_chunks_tidy_and_bounded(text, max_chars);
    lemma_chunks_keep_words(text, max_chars);
    assert forall|i: int| 0 <= i < cs.len() implies (#[trigger] cs[i]).len() <= effective_max(max_chars) by {
        let c = cs[i];
        if c.len() > effective_max(max_chars) {
            assert(no_ws(c));
            lemma_words_of_word(c);
            assert(words(c)[0] == c);
            lemma_word_in_all_words(cs, i, c);
            let k = choose|k: int| 0 <= k < words(text).len() && words(text)[k] == c;
            assert(words(text)[k].len() <= effective_max(max_chars));
        }
    }
}

// ---------------------------------------------------------------------------
// Laws of whitespace normalisation
// ---------------------------------------------------------------------------

/// Replacing runs of whitespace by non-empty whitespace keeps the words, whatever
/// comes before.
proof fn lemma_words_runs_replaced(
    a: Seq<char>,
    t: Seq<char>,
    member: spec_fn(char) -> bool,
    min: nat,
    rep: Seq<char>,
)
    requires
        forall|c: char| #[trigger] member(c) ==> is_ws(c),
        rep.len() > 0,
        all_ws(rep),
    ensures
        words(a + runs_replaced(t, member, min, rep)) == words(a + t),
    decreases t.len(),
{
    if t.len() == 0 {
        assert(runs_replaced(t, member, min, rep) =~= Seq::<char>::empty());
        assert(a + Seq::<char>::empty() =~= a);
        assert(a + t =~= a);
    } else if member(t[0]) {
        lemma_run_len(t, member);
        let k = run_len(t, member) as int;
        let x = if k >= min {
            rep
        } else {
            t.take(k)
        };
        let rest = t.skip(k);
        assert(all_ws(t.take(k))) by {
            assert forall|i: int| 0 <= i < k implies is_ws(#[trigger] t.take(k)[i]) by {
                assert(t.take(k)[i] == t[i]);
                assert(member(t[i]));
            }
        }
        lemma_words_runs_replaced(Seq::empty(), rest, member, min, rep);
        assert(Seq::<char>::empty() + runs_replaced(rest, member, min, rep) =~= runs_replaced(rest, member, min, rep));
        assert(Seq::<char>::empty() + rest =~= rest);
        lemma_words_sep(a, x, runs_replaced(rest, member, min, rep));
        lemma_words_sep(a, t.take(k), rest);
        assert(a + (x + runs_replaced(rest, member, min, rep)) =~= a + x + runs_replaced(rest, member, min, rep));
        assert(a + t.take(k) + rest =~= a + t);
    } else {
        let c = seq![t[0]];
        let rest = t.drop_first();
        lemma_words_runs_replaced(a + c, rest, member, min, rep);
        assert(a + (c + runs_replaced(rest, member, min, rep)) =~= a + c + runs_replaced(rest, member, min, rep));
        assert(a + c + rest =~= a + t);
    }
}

proof fn lemma_words_runs_replaced_alone(t: Seq<char>, member: spec_fn(char) -> bool, min: nat, rep: Seq<char>)
    requires
        forall|c: char| #[trigger] member(c) ==> is_ws(c),
        rep.len() > 0,
        all_ws(rep),
    ensures
        words(runs_replaced(t, member, min, rep)) == words(t),
{
    lemma_words_runs_replaced(Seq::empty(), t, member, min, rep);
    assert(Seq::<char>::empty() + runs_replaced(t, member, min, rep) =~= runs_replaced(t, member, min, rep));
    assert(Seq::<char>::empty() + t =~= t);
}

/// Replacing whitespace by whitespace keeps the words.
proof fn lemma_words_replaced(s: Seq<char>, pat: Seq<char>, rep: Seq<char>)
    requires
        pat.len() > 0,
        all_ws(pat),
        rep.len() > 0,
        all_ws(rep),
    ensures
        words(replaced(s, pat, rep)) == words(s),
{
    lemma_words_join(split_on(s, pat), rep);
    lemma_words_join(split_on(s, pat), pat);
    lemma_join_split(s, pat);
}

/// Whitespace normalisation keeps every word of the text, in order.
pub proof fn lemma_normalize_keeps_words(text: Seq<char>)
    ensures
        words(normalized(text)) == words(text),
{
    let crlf = seq!['\r', '\n'];
    let cr = seq!['\r'];
    let lf = seq!['\n'];
    assert(all_ws(crlf) && all_ws(cr) && all_ws(lf)) by {
        assert(is_ws(crlf[0]) && is_ws(crlf[1]) && is_ws(cr[0]) && is_ws(lf[0]));
    }
    lemma_blank_line_ws();
    lemma_words_replaced(text, crlf, lf);
    lemma_words_replaced(replaced(text, crlf, lf), cr, lf);
    let u = newlines_unified(text);
    let blank_member = |c: char| is_blank(c);
    let nl_member = |c: char| c == '\n';
    lemma_words_runs_replaced_alone(u, blank_member, 1, space());
    let c1 = runs_replaced(u, blank_member, 1, space());
    lemma_words_runs_replaced_alone(c1, nl_member, 3, blank_line());
    let c2 = runs_replaced(c1, nl_member, 3, blank_line());
    let lines = trimmed_nonempty(split_on(c2, lf));
    lemma_words_join(lines, blank_line());
    lemma_all_words_trimmed_nonempty(split_on(c2, lf));
    lemma_words_join(split_on(c2, lf), lf);
    lemma_join_split(c2, lf);
}

/// The lines that whitespace normalisation keeps.
pub open spec fn normalized_lines(text: Seq<char>) -> Seq<Seq<char>> {
    let collapsed = runs_replaced(
        runs_replaced(newlines_unified(text), |c: char| is_blank(c), 1, space()),
        |c: char| c == '\n',
        3,
        blank_line(),
    );
    trimmed_nonempty(split_on(collapsed, seq!['\n']))
}

/// `c` does not occur in `s`.
pub open spec fn lacks(s: Seq<char>, c: char) -> bool {
    forall|k: int| 0 <= k < s.len() ==> #[trigger] s[k] != c
}

pub proof fn lemma_split_pieces_lack(s: Seq<char>, c: char)
    ensures
        forall|i: int| 0 <= i < split_on(s, seq![c]).len() ==> lacks(#[trigger] split_on(s, seq![c])[i], c),
    decreases s.len(),
{
    let pat = seq![c];
    match first_match(s, pat) {
        None => {
            lemma_first_match(s, pat);
            assert forall|k: int| 0 <= k < s.len() implies #[trigger] s[k] != c by {
                if s[k] == c {
                    assert(s.subrange(k, k + 1) =~= pat);
                    assert(occurs_at(s, pat, k));
                }
            }
        },
        Some(i) => {
            lemma_first_match(s, pat);
            let rest = s.skip(i + 1);
            lemma_split_pieces_lack(rest, c);
            let parts = split_on(s, pat);
            assert(parts == seq![s.take(i)] + split_on(rest, pat));
            assert forall|j: int| 0 <= j < parts.len() implies lacks(#[trigger] parts[j], c) by {
                if j == 0 {
                    assert forall|k: int| 0 <= k < s.take(i).len() implies #[trigger] s.take(i)[k] != c by {
                        if s.take(i)[k] == c {
                            assert(s.subrange(k, k + 1) =~= pat);
                            assert(occurs_at(s, pat, k));
                        }
                    }
                } else {
                    assert(parts[j] == split_on(rest, pat)[j - 1]);
                }
            }
        },
    }
}

proof fn lemma_trim_lacks(p: Seq<char>, c: char)
    requires
        lacks(p, c),
    ensures
        lacks(trim(p), c),
{
    lemma_trim_start_shape(p);
    let a = choose|k: int| 0 <= k <= p.len() && trim_start(p) == p.skip(k);
    let t = trim_start(p);
    lemma_trim_end_shape(t);
    let b = choose|k: int| 0 <= k <= t.len() && trim_end(t) == t.take(k);
    assert forall|k: int| 0 <= k < trim(p).len() implies #[trigger] trim(p)[k] != c by {
        assert(trim(p)[k] == t[k]);
        assert(t[k] == p[k + a]);
    }
}

proof fn lemma_trimmed_nonempty_lacks(parts: Seq<Seq<char>>, c: char)
    requires
        forall|i: int| 0 <= i < parts.len() ==> lacks(#[trigger] parts[i], c),
    ensures
        forall|i: int| 0 <= i < trimmed_nonempty(parts).len() ==> lacks(#[trigger] trimmed_nonempty(parts)[i], c),
    decreases parts.len(),
{
    if parts.len() > 0 {
        let w = parts.drop_last();
        assert forall|i: int| 0 <= i < w.len() implies lacks(#[trigger] w[i], c) by {
            assert(w[i] == parts[i]);
        }
        lemma_trimmed_nonempty_lacks(w, c);
        assert(parts[parts.len() - 1] == parts.last());
        lemma_trim_lacks(parts.last(), c);
        let r = trimmed_nonempty(parts);
        let rest = trimmed_nonempty(w);
        assert forall|i: int| 0 <= i < r.len() implies lacks(#[trigger] r[i], c) by {
            if i < rest.len() {
                assert(r[i] == rest[i]);
            }
        }
    }
}

/// Normalised text is its kept lines joined by blank lines; each line is
/// non-empty, neither starts nor ends with whitespace, and holds no line break.
pub proof fn lemma_normalized_shape(text: Seq<char>)
    ensures
        normalized(text) == join(normalized_lines(text), blank_line()),
        forall|i: int|
            0 <= i < normalized_lines(text).len() ==> {
                let l = #[trigger] normalized_lines(text)[i];
                &&& l.len() > 0
                &&& !is_ws(l[0])
                &&& !is_ws(l.last())
                &&& lacks(l, '\n')
            },
{
    let collapsed = runs_replaced(
        runs_replaced(newlines_unified(text), |c: char| is_blank(c), 1, space()),
        |c: char| c == '\n',
        3,
        blank_line(),
    );
    let parts = split_on(collapsed, seq!['\n']);
    lemma_trimmed_nonempty_tidy(parts);
    lemma_split_pieces_lack(collapsed, '\n');
    lemma_trimmed_nonempty_lacks(parts, '\n');
    let ls = normalized_lines(text);
    assert forall|i: int| 0 <= i < ls.len() implies {
        let l = #[trigger] ls[i];
        &&& l.len() > 0
        &&& !is_ws(l[0])
        &&& !is_ws(l.last())
        &&& lacks(l, '\n')
    } by {
        assert(tidy(ls[i]));
    }
}

} // verus!
