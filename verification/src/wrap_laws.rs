//! Laws of the two splitters under chunking: hard wrapping packs words greedily
//! into lines, and sentence splitting cuts a paragraph after its sentence ends.
use vstd::prelude::*;
use crate::chars::{is_ws, join, words, trim, trim_start, trim_end, trimmed_nonempty, lemma_trim_of_tidy};
use crate::text::{
    sentence_state, long_paragraph_chunks, paragraph_state, paragraphs, tts_chunks, effective_max, blank_line,
    wrap_state, hard_wrapped, pack, flush, space, no_ws, good_chunk, tidy, lemma_words_shape,
    lemma_hard_wrapped_good, sentences, sentence_pieces, first_sentence_end, is_terminator, lemma_first_sentence_end,
    lemma_trim_start_len, lemma_trim_tidy, lemma_trimmed_nonempty_tidy,
};
use crate::text_laws::{
    all_words, lemma_words_sep, lemma_words_of_word, lemma_hard_wrapped_words, lemma_all_words_sentences,
    lemma_all_words_sentence_pieces, lemma_all_words_trimmed_nonempty, lemma_words_trim,
};

verus! {

/// Joining after extending the last piece by `sep` and `y` is joining and then
/// appending `sep` and `y`.
proof fn lemma_join_extend_last(d: Seq<Seq<char>>, x: Seq<char>, sep: Seq<char>, y: Seq<char>)
    ensures
        join(d.push(x + sep + y), sep) == join(d.push(x), sep) + sep + y,
{
    if d.len() == 0 {
        assert(d.push(x + sep + y) =~= seq![x + sep + y]);
        assert(d.push(x) =~= seq![x]);
        assert(x + sep + y =~= x + sep + y);
    } else {
        assert(d.push(x + sep + y).drop_last() =~= d);
        assert(d.push(x).drop_last() =~= d);
        assert(join(d, sep) + sep + (x + sep + y) =~= join(d, sep) + sep + x + sep + y);
    }
}

/// Every line has words, and each line together with the first word of the
/// next one would be longer than `max`.
pub open spec fn greedy_lines(ls: Seq<Seq<char>>, max: nat) -> bool {
    &&& forall|i: int| 0 <= i < ls.len() ==> words(#[trigger] ls[i]).len() > 0
    &&& forall|i: int|
        0 <= i && i + 1 < ls.len() ==> (#[trigger] ls[i]).len() + 1 + words(ls[i + 1])[0].len() > max
}

proof fn lemma_wrap_state_greedy(ws: Seq<Seq<char>>, max: nat)
    requires
        forall|i: int| 0 <= i < ws.len() ==> (#[trigger] ws[i]).len() > 0 && no_ws(ws[i]),
    ensures
        ws.len() == 0 ==> wrap_state(ws, max).0.len() == 0 && wrap_state(ws, max).1.len() == 0,
        ws.len() > 0 ==> wrap_state(ws, max).1.len() > 0,
        join(flush(wrap_state(ws, max)), space()) == join(ws, space()),
        greedy_lines(flush(wrap_state(ws, max)), max),
    decreases ws.len(),
{
    if ws.len() > 0 {
        let init = ws.drop_last();
        let w = ws.last();
        assert forall|i: int| 0 <= i < init.len() implies (#[trigger] init[i]).len() > 0 && no_ws(init[i]) by {
            assert(init[i] == ws[i]);
        }
        assert(ws[ws.len() - 1] == w);
        lemma_wrap_state_greedy(init, max);
        lemma_words_of_word(w);
        let st = wrap_state(init, max);
        let (done, cur) = st;
        let old_f = flush(st);
        let nst = pack(done, cur, w, space(), max);
        let f = flush(nst);
        assert(wrap_state(ws, max) == nst);
        if cur.len() > 0 && cur.len() + 1 + w.len() > max {
            assert(old_f == done.push(cur));
            assert(f == done.push(cur).push(w));
            assert(f.drop_last() == old_f);
            assert(join(ws, space()) == join(init, space()) + space() + w);
            assert forall|i: int| 0 <= i < f.len() implies words(#[trigger] f[i]).len() > 0 by {
                if i < old_f.len() {
                    assert(f[i] == old_f[i]);
                }
            }
            assert forall|i: int| 0 <= i && i + 1 < f.len() implies (#[trigger] f[i]).len() + 1 + words(
                f[i + 1],
            )[0].len() > max by {
                if i + 1 < old_f.len() {
                    assert(f[i] == old_f[i]);
                    assert(f[i + 1] == old_f[i + 1]);
                } else {
                    assert(f[i] == cur);
                    assert(f[i + 1] == w);
                }
            }
        } else if cur.len() == 0 {
            assert(init.len() == 0);
            assert(f =~= seq![w]);
            assert(ws =~= seq![w]);
        } else {
            let line = cur + space() + w;
            assert(old_f == done.push(cur));
            assert(f == done.push(line));
            lemma_join_extend_last(done, cur, space(), w);
            assert(join(ws, space()) == join(init, space()) + space() + w);
            assert(crate::text_laws::all_ws(space())) by {
                assert(is_ws(space()[0]));
            }
            lemma_words_sep(cur, space(), w);
            assert(words(cur).len() > 0) by {
                assert(old_f[old_f.len() - 1] == cur);
            }
            assert(words(line) == words(cur) + words(w));
            assert(words(line)[0] == words(cur)[0]);
            assert forall|i: int| 0 <= i < f.len() implies words(#[trigger] f[i]).len() > 0 by {
                if i < done.len() {
                    assert(f[i] == old_f[i]);
                }
            }
            assert forall|i: int| 0 <= i && i + 1 < f.len() implies (#[trigger] f[i]).len() + 1 + words(
                f[i + 1],
            )[0].len() > max by {
                assert(f[i] == old_f[i]);
                if i + 1 < done.len() {
                    assert(f[i + 1] == old_f[i + 1]);
                } else {
                    assert(old_f[i + 1] == cur);
                }
            }
        }
    }
}

/// Hard wrapping: the lines joined by single spaces are the words of the text
/// joined by single spaces, and hold the words in order; each line is tidy and
/// within `max` characters unless it is a single word; and the wrap is greedy:
/// no line could also hold the first word of the next line.
pub proof fn lemma_hard_wrap_law(text: Seq<char>, max: nat)
    ensures
        join(hard_wrapped(text, max), space()) == join(words(text), space()),
        all_words(hard_wrapped(text, max)) == words(text),
        forall|i: int| 0 <= i < hard_wrapped(text, max).len() ==> good_chunk(#[trigger] hard_wrapped(text, max)[i], max),
        greedy_lines(hard_wrapped(text, max), max),
{
    lemma_words_shape(text);
    lemma_wrap_state_greedy(words(text), max);
    lemma_hard_wrapped_words(text, max);
    lemma_hard_wrapped_good(text, max);
}


/// Every piece but the last ends with a sentence terminator.
pub open spec fn ends_terminated(ps: Seq<Seq<char>>) -> bool {
    forall|i: int| 0 <= i && i + 1 < ps.len() ==> (#[trigger] ps[i]).len() > 0 && is_terminator(ps[i].last())
}

/// Every piece ends with a sentence terminator.
pub open spec fn all_terminated(ps: Seq<Seq<char>>) -> bool {
    forall|i: int| 0 <= i < ps.len() ==> (#[trigger] ps[i]).len() > 0 && is_terminator(ps[i].last())
}

proof fn lemma_pieces_terminated(s: Seq<char>)
    ensures
        ends_terminated(sentence_pieces(s)),
    decreases s.len(),
{
    match first_sentence_end(s) {
        None => {},
        Some(i) => {
            lemma_first_sentence_end(s);
            lemma_trim_start_len(s.skip(i + 1));
            let rest = trim_start(s.skip(i + 1));
            lemma_pieces_terminated(rest);
            let head = s.take(i + 1);
            let ps = sentence_pieces(s);
            assert(ps == seq![head] + sentence_pieces(rest));
            assert(head.last() == s[i]);
            assert forall|j: int| 0 <= j && j + 1 < ps.len() implies (#[trigger] ps[j]).len() > 0 && is_terminator(
                ps[j].last(),
            ) by {
                if j > 0 {
                    assert(ps[j] == sentence_pieces(rest)[j - 1]);
                }
            }
        },
    }
}

proof fn lemma_trim_start_keeps_last(p: Seq<char>)
    requires
        p.len() > 0,
        !is_ws(p.last()),
    ensures
        trim_start(p).len() > 0,
        trim_start(p).last() == p.last(),
    decreases p.len(),
{
    if is_ws(p[0]) {
        lemma_trim_start_keeps_last(p.drop_first());
    }
}

/// Trimming keeps a terminator at the end.
proof fn lemma_trim_keeps_terminator(p: Seq<char>)
    requires
        p.len() > 0,
        is_terminator(p.last()),
    ensures
        trim(p).len() > 0,
        trim(p).last() == p.last(),
{
    lemma_trim_start_keeps_last(p);
    let t = trim_start(p);
    assert(trim_end(t) == t);
}

proof fn lemma_trimmed_all_terminated(parts: Seq<Seq<char>>)
    requires
        all_terminated(parts),
    ensures
        all_terminated(trimmed_nonempty(parts)),
    decreases parts.len(),
{
    if parts.len() > 0 {
        let init = parts.drop_last();
        assert forall|i: int| 0 <= i < init.len() implies (#[trigger] init[i]).len() > 0 && is_terminator(
            init[i].last(),
        ) by {
            assert(init[i] == parts[i]);
        }
        lemma_trimmed_all_terminated(init);
        assert(parts[parts.len() - 1] == parts.last());
        lemma_trim_keeps_terminator(parts.last());
        let r = trimmed_nonempty(parts);
        let rest = trimmed_nonempty(init);
        assert forall|i: int| 0 <= i < r.len() implies (#[trigger] r[i]).len() > 0 && is_terminator(r[i].last()) by {
            if i < rest.len() {
                assert(r[i] == rest[i]);
            }
        }
    }
}

proof fn lemma_trimmed_ends_terminated(parts: Seq<Seq<char>>)
    requires
        ends_terminated(parts),
    ensures
        ends_terminated(trimmed_nonempty(parts)),
{
    if parts.len() > 0 {
        let init = parts.drop_last();
        assert forall|i: int| 0 <= i < init.len() implies (#[trigger] init[i]).len() > 0 && is_terminator(
            init[i].last(),
        ) by {
            assert(init[i] == parts[i]);
        }
        lemma_trimmed_all_terminated(init);
        let r = trimmed_nonempty(parts);
        let rest = trimmed_nonempty(init);
        assert forall|i: int| 0 <= i && i + 1 < r.len() implies (#[trigger] r[i]).len() > 0 && is_terminator(
            r[i].last(),
        ) by {
            assert(i < rest.len());
            assert(r[i] == rest[i]);
        }
    }
}

/// A text that starts with a non-whitespace character has a word.
proof fn lemma_words_nonempty(c: Seq<char>)
    requires
        c.len() > 0,
        !is_ws(c[0]),
    ensures
        words(c).len() > 0,
{
    crate::chars::lemma_word_len(c);
}

/// Sentence splitting: there is always at least one piece. A text that is all
/// whitespace is returned whole. Otherwise every piece is non-empty and its own
/// trim, and every piece but the last ends with `.`, `!` or `?`. Either way the
/// pieces hold the words of the text, in order.
pub proof fn lemma_sentences_law(text: Seq<char>)
    ensures
        sentences(text).len() > 0,
        trim(text).len() == 0 ==> sentences(text) == seq![text],
        trim(text).len() > 0 ==> forall|i: int|
            0 <= i < sentences(text).len() ==> tidy(#[trigger] sentences(text)[i]) && trim(sentences(text)[i])
                == sentences(text)[i],
        trim(text).len() > 0 ==> ends_terminated(sentences(text)),
        all_words(sentences(text)) == words(text),
{
    let pieces = sentence_pieces(text);
    let ps = trimmed_nonempty(pieces);
    lemma_all_words_sentences(text);
    lemma_all_words_sentence_pieces(text);
    lemma_all_words_trimmed_nonempty(pieces);
    lemma_trimmed_nonempty_tidy(pieces);
    lemma_words_trim(text);
    lemma_trim_tidy(text);
    if trim(text).len() > 0 {
        lemma_words_nonempty(trim(text));
        assert(ps.len() > 0);
        lemma_pieces_terminated(text);
        lemma_trimmed_ends_terminated(pieces);
        assert forall|i: int| 0 <= i < ps.len() implies tidy(#[trigger] ps[i]) && trim(ps[i]) == ps[i] by {
            lemma_trim_of_tidy(ps[i]);
        }
    } else {
        assert(words(trim(text)) == Seq::<Seq<char>>::empty());
        if ps.len() > 0 {
            assert(tidy(ps[ps.len() - 1]));
            lemma_words_nonempty(ps.last());
            assert(all_words(ps) == all_words(ps.drop_last()) + words(ps.last()));
        }
    }
}


/// The groups one after the other.
pub open spec fn concat_groups(gs: Seq<Seq<Seq<char>>>) -> Seq<Seq<char>>
    decreases gs.len(),
{
    if gs.len() == 0 {
        Seq::empty()
    } else {
        concat_groups(gs.drop_last()) + gs.last()
    }
}

proof fn lemma_join_push(g: Seq<Seq<char>>, x: Seq<char>, sep: Seq<char>)
    requires
        g.len() > 0,
    ensures
        join(g.push(x), sep) == join(g, sep) + sep + x,
{
    assert(g.push(x).drop_last() =~= g);
}

/// Packing sentences that all fit: the chunks so far are the joined groups of
/// the sentences packed so far, each chunk was closed only because the first
/// sentence of the next group would not fit, and the open chunk is the joined
/// current group.
proof fn lemma_sentence_state_groups(ss: Seq<Seq<char>>, max: nat) -> (r: (Seq<Seq<Seq<char>>>, Seq<Seq<char>>))
    requires
        forall|k: int| 0 <= k < ss.len() ==> trim(#[trigger] ss[k]).len() <= max,
    ensures
        concat_groups(r.0) + r.1 == trimmed_nonempty(ss),
        r.0.len() == sentence_state(ss, max).0.len(),
        forall|i: int|
            0 <= i < r.0.len() ==> (#[trigger] r.0[i]).len() > 0 && sentence_state(ss, max).0[i] == join(
                r.0[i],
                space(),
            ),
        sentence_state(ss, max).1 == join(r.1, space()),
        r.1.len() > 0 <==> sentence_state(ss, max).1.len() > 0,
        r.1.len() == 0 ==> r.0.len() == 0,
        forall|i: int|
            0 <= i && i + 1 < r.0.len() ==> (#[trigger] sentence_state(ss, max).0[i]).len() + 1 + r.0[i + 1][0].len()
                > max,
        r.0.len() > 0 && r.1.len() > 0 ==> sentence_state(ss, max).0.last().len() + 1 + r.1[0].len() > max,
    decreases ss.len(),
{
    let e = Seq::<Seq<char>>::empty();
    if ss.len() == 0 {
        (Seq::empty(), e)
    } else {
        let init = ss.drop_last();
        assert forall|k: int| 0 <= k < init.len() implies trim(#[trigger] init[k]).len() <= max by {
            assert(init[k] == ss[k]);
        }
        let (gs, cg) = lemma_sentence_state_groups(init, max);
        assert(ss[ss.len() - 1] == ss.last());
        let st = sentence_state(init, max);
        let (done, cur) = st;
        let x = trim(ss.last());
        let tn = trimmed_nonempty(ss);
        if x.len() == 0 {
            assert(tn == trimmed_nonempty(init));
            (gs, cg)
        } else {
            assert(tn == trimmed_nonempty(init).push(x));
            assert(sentence_state(ss, max) == pack(done, cur, x, space(), max));
            if cur.len() > 0 && cur.len() + 1 + x.len() > max {
                let gs2 = gs.push(cg);
                let cg2 = seq![x];
                assert(gs2.drop_last() =~= gs);
                assert(concat_groups(gs2) == concat_groups(gs) + cg);
                assert(concat_groups(gs2) + cg2 =~= concat_groups(gs) + cg + cg2);
                assert(concat_groups(gs) + cg + cg2 =~= (concat_groups(gs) + cg).push(x));
                let nd = done.push(cur);
                assert forall|i: int| 0 <= i < gs2.len() implies (#[trigger] gs2[i]).len() > 0 && nd[i] == join(
                    gs2[i],
                    space(),
                ) by {
                    if i < gs.len() {
                        assert(gs2[i] == gs[i]);
                    }
                }
                assert forall|i: int| 0 <= i && i + 1 < gs2.len() implies (#[trigger] nd[i]).len() + 1
                    + gs2[i + 1][0].len() > max by {
                    if i + 1 < gs.len() {
                        assert(nd[i] == done[i]);
                        assert(gs2[i + 1] == gs[i + 1]);
                    } else {
                        assert(nd[i] == done.last());
                        assert(gs2[i + 1] == cg);
                    }
                }
                assert(join(cg2, space()) == x);
                (gs2, cg2)
            } else if cur.len() == 0 {
                assert(join(seq![x], space()) == x);
                (gs, seq![x])
            } else {
                let cg2 = cg.push(x);
                lemma_join_push(cg, x, space());
                assert(cg2[0] == cg[0]);
                assert(concat_groups(gs) + cg2 =~= (concat_groups(gs) + cg).push(x));
                (gs, cg2)
            }
        }
    }
}

/// Packing the sentences of a long paragraph is greedy: when every sentence
/// fits the limit, the chunks are the sentences in order, grouped and joined by
/// single spaces, and a chunk is closed only when the first sentence of the
/// next chunk would not fit after it.
pub proof fn lemma_sentence_packing_greedy(p: Seq<char>, max: nat)
    requires
        forall|k: int| 0 <= k < sentences(p).len() ==> trim(#[trigger] sentences(p)[k]).len() <= max,
    ensures
        exists|gs: Seq<Seq<Seq<char>>>|
            {
                &&& concat_groups(gs) == trimmed_nonempty(sentences(p))
                &&& gs.len() == long_paragraph_chunks(p, max).len()
                &&& forall|i: int|
                    0 <= i < gs.len() ==> (#[trigger] gs[i]).len() > 0 && long_paragraph_chunks(p, max)[i] == join(
                        gs[i],
                        space(),
                    )
                &&& forall|i: int|
                    0 <= i && i + 1 < gs.len() ==> (#[trigger] long_paragraph_chunks(p, max)[i]).len() + 1
                        + gs[i + 1][0].len() > max
            },
{
    let ss = sentences(p);
    let (gs, cg) = lemma_sentence_state_groups(ss, max);
    let st = sentence_state(ss, max);
    let chunks = long_paragraph_chunks(p, max);
    if cg.len() > 0 {
        let gs2 = gs.push(cg);
        assert(gs2.drop_last() =~= gs);
        assert(chunks == st.0.push(st.1));
        assert forall|i: int| 0 <= i < gs2.len() implies (#[trigger] gs2[i]).len() > 0 && chunks[i] == join(
            gs2[i],
            space(),
        ) by {
            if i < gs.len() {
                assert(gs2[i] == gs[i]);
            }
        }
        assert forall|i: int| 0 <= i && i + 1 < gs2.len() implies (#[trigger] chunks[i]).len() + 1
            + gs2[i + 1][0].len() > max by {
            if i + 1 < gs.len() {
                assert(chunks[i] == st.0[i]);
                assert(gs2[i + 1] == gs[i + 1]);
            } else {
                assert(chunks[i] == st.0.last());
                assert(gs2[i + 1] == cg);
            }
        }
        assert(concat_groups(gs2) =~= concat_groups(gs) + cg);
    } else {
        assert(chunks == st.0);
        assert(concat_groups(gs) + cg =~= concat_groups(gs));
        assert(gs.len() == 0);
        assert forall|i: int| 0 <= i < gs.len() implies (#[trigger] gs[i]).len() > 0 && chunks[i] == join(
            gs[i],
            space(),
        ) by {}
    }
}


proof fn lemma_paragraph_state_groups(ps: Seq<Seq<char>>, max: nat) -> (r: (Seq<Seq<Seq<char>>>, Seq<Seq<char>>))
    requires
        forall|k: int| 0 <= k < ps.len() ==> (#[trigger] ps[k]).len() > 0 && ps[k].len() <= max,
    ensures
        concat_groups(r.0) + r.1 == ps,
        r.0.len() == paragraph_state(ps, max).0.len(),
        forall|i: int|
            0 <= i < r.0.len() ==> (#[trigger] r.0[i]).len() > 0 && paragraph_state(ps, max).0[i] == join(
                r.0[i],
                blank_line(),
            ),
        paragraph_state(ps, max).1 == join(r.1, blank_line()),
        r.1.len() > 0 <==> paragraph_state(ps, max).1.len() > 0,
        r.1.len() == 0 ==> r.0.len() == 0,
        forall|i: int|
            0 <= i && i + 1 < r.0.len() ==> (#[trigger] paragraph_state(ps, max).0[i]).len() + 2
                + r.0[i + 1][0].len() > max,
        r.0.len() > 0 && r.1.len() > 0 ==> paragraph_state(ps, max).0.last().len() + 2 + r.1[0].len() > max,
    decreases ps.len(),
{
    let e = Seq::<Seq<char>>::empty();
    if ps.len() == 0 {
        (Seq::empty(), e)
    } else {
        let init = ps.drop_last();
        assert forall|k: int| 0 <= k < init.len() implies (#[trigger] init[k]).len() > 0 && init[k].len() <= max by {
            assert(init[k] == ps[k]);
        }
        let (gs, cg) = lemma_paragraph_state_groups(init, max);
        assert(ps[ps.len() - 1] == ps.last());
        let st = paragraph_state(init, max);
        let (done, cur) = st;
        let x = ps.last();
        assert(init.push(x) =~= ps);
        assert(paragraph_state(ps, max) == pack(done, cur, x, blank_line(), max));
        if cur.len() > 0 && cur.len() + 2 + x.len() > max {
            let gs2 = gs.push(cg);
            let cg2 = seq![x];
            assert(gs2.drop_last() =~= gs);
            assert(concat_groups(gs2) == concat_groups(gs) + cg);
            assert(concat_groups(gs2) + cg2 =~= (concat_groups(gs) + cg).push(x));
            let nd = done.push(cur);
            assert forall|i: int| 0 <= i < gs2.len() implies (#[trigger] gs2[i]).len() > 0 && nd[i] == join(
                gs2[i],
                blank_line(),
            ) by {
                if i < gs.len() {
                    assert(gs2[i] == gs[i]);
                }
            }
            assert forall|i: int| 0 <= i && i + 1 < gs2.len() implies (#[trigger] nd[i]).len() + 2
                + gs2[i + 1][0].len() > max by {
                if i + 1 < gs.len() {
                    assert(nd[i] == done[i]);
                    assert(gs2[i + 1] == gs[i + 1]);
                } else {
                    assert(nd[i] == done.last());
                    assert(gs2[i + 1] == cg);
                }
            }
            assert(join(cg2, blank_line()) == x);
            (gs2, cg2)
        } else if cur.len() == 0 {
            assert(join(seq![x], blank_line()) == x);
            (gs, seq![x])
        } else {
            let cg2 = cg.push(x);
            lemma_join_push(cg, x, blank_line());
            assert(cg2[0] == cg[0]);
            assert(concat_groups(gs) + cg2 =~= (concat_groups(gs) + cg).push(x));
            (gs, cg2)
        }
    }
}

/// Packing paragraphs into chunks is greedy: when every paragraph fits the
/// limit (at least 32), the chunks are the paragraphs in order, grouped and
/// joined by blank lines, and a chunk is closed only when the first paragraph
/// of the next chunk would not fit after a blank line.
pub proof fn lemma_paragraph_packing_greedy(text: Seq<char>, max_chars: nat)
    requires
        forall|k: int| 0 <= k < paragraphs(text).len() ==> (#[trigger] paragraphs(text)[k]).len() <= effective_max(
            max_chars,
        ),
    ensures
        exists|gs: Seq<Seq<Seq<char>>>|
            {
                &&& concat_groups(gs) == paragraphs(text)
                &&& gs.len() == tts_chunks(text, max_chars).len()
                &&& forall|i: int|
                    0 <= i < gs.len() ==> (#[trigger] gs[i]).len() > 0 && tts_chunks(text, max_chars)[i] == join(
                        gs[i],
                        blank_line(),
                    )
                &&& forall|i: int|
                    0 <= i && i + 1 < gs.len() ==> (#[trigger] tts_chunks(text, max_chars)[i]).len() + 2
                        + gs[i + 1][0].len() > effective_max(max_chars)
            },
{
    let ps = paragraphs(text);
    let max = effective_max(max_chars);
    lemma_trimmed_nonempty_tidy(crate::chars::split_on(text, blank_line()));
    assert forall|k: int| 0 <= k < ps.len() implies (#[trigger] ps[k]).len() > 0 && ps[k].len() <= max by {
        assert(tidy(ps[k]));
    }
    let (gs, cg) = lemma_paragraph_state_groups(ps, max);
    let st = paragraph_state(ps, max);
    let chunks = tts_chunks(text, max_chars);
    if cg.len() > 0 {
        let gs2 = gs.push(cg);
        assert(gs2.drop_last() =~= gs);
        assert(chunks == st.0.push(st.1));
        assert forall|i: int| 0 <= i < gs2.len() implies (#[trigger] gs2[i]).len() > 0 && chunks[i] == join(
            gs2[i],
            blank_line(),
        ) by {
            if i < gs.len() {
                assert(gs2[i] == gs[i]);
            }
        }
        assert forall|i: int| 0 <= i && i + 1 < gs2.len() implies (#[trigger] chunks[i]).len() + 2
            + gs2[i + 1][0].len() > max by {
            if i + 1 < gs.len() {
                assert(chunks[i] == st.0[i]);
                assert(gs2[i + 1] == gs[i + 1]);
            } else {
                assert(chunks[i] == st.0.last());
                assert(gs2[i + 1] == cg);
            }
        }
        assert(concat_groups(gs2) =~= concat_groups(gs) + cg);
    } else {
        assert(chunks == st.0);
        assert(concat_groups(gs) + cg =~= concat_groups(gs));
    }
}

} // verus!
