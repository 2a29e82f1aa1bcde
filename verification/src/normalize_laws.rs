//! Whitespace normalisation reaches its fixed point in one step: normalising
//! normalised text changes nothing.
use vstd::prelude::*;
use crate::chars::{
    is_ws, trim, trim_start, trim_end, trimmed_nonempty, split_on, first_match, occurs_at, join, replaced,
    lemma_first_match, lemma_trim_of_tidy,
};
use crate::text::{
    normalized, newlines_unified, runs_replaced, run_len, lemma_run_len, is_blank, space, blank_line,
    lemma_trim_start_shape, lemma_trim_end_shape,
};
use crate::text_laws::{lacks, normalized_lines, lemma_normalized_shape, lemma_split_pieces_lack};

verus! {

/// No tab, and no space directly followed by another space.
pub open spec fn blanks_single(s: Seq<char>) -> bool {
    forall|k: int|
        0 <= k < s.len() ==> #[trigger] s[k] != '\t' && (s[k] == ' ' && k + 1 < s.len() ==> s[k + 1] != ' ')
}

/// No three line feeds in a row.
pub open spec fn no_triple_newline(s: Seq<char>) -> bool {
    forall|k: int|
        #![trigger s[k]]
        0 <= k && k + 2 < s.len() ==> !(s[k] == '\n' && s[k + 1] == '\n' && s[k + 2] == '\n')
}

/// Replacing a pattern whose first character does not occur changes nothing.
proof fn lemma_replaced_absent(s: Seq<char>, pat: Seq<char>, rep: Seq<char>)
    requires
        pat.len() > 0,
        lacks(s, pat[0]),
    ensures
        replaced(s, pat, rep) == s,
{
    lemma_first_match(s, pat);
    match first_match(s, pat) {
        Some(m) => {
            assert(s.subrange(m, m + pat.len())[0] == s[m]);
        },
        None => {},
    }
    assert(split_on(s, pat) == seq![s]);
}

/// Collapsing runs of blanks leaves text with single blanks unchanged.
proof fn lemma_blank_runs_fixed(s: Seq<char>, member: spec_fn(char) -> bool)
    requires
        forall|c: char| #[trigger] member(c) <==> (c == ' ' || c == '\t'),
        blanks_single(s),
    ensures
        runs_replaced(s, member, 1, space()) == s,
    decreases s.len(),
{
    if s.len() > 0 {
        if member(s[0]) {
            lemma_run_len(s, member);
            let k = run_len(s, member);
            if k >= 2 {
                assert(member(s[1]));
            }
            assert(k == 1);
            let rest = s.skip(1);
            assert forall|j: int| 0 <= j < rest.len() implies #[trigger] rest[j] != '\t' && (rest[j] == ' '
                && j + 1 < rest.len() ==> rest[j + 1] != ' ') by {
                assert(rest[j] == s[j + 1]);
                if j + 1 < rest.len() {
                    assert(rest[j + 1] == s[j + 2]);
                }
            }
            lemma_blank_runs_fixed(rest, member);
            assert(space() =~= s.take(1));
            assert(s.take(1) + rest =~= s);
        } else {
            let rest = s.drop_first();
            assert forall|j: int| 0 <= j < rest.len() implies #[trigger] rest[j] != '\t' && (rest[j] == ' '
                && j + 1 < rest.len() ==> rest[j + 1] != ' ') by {
                assert(rest[j] == s[j + 1]);
                if j + 1 < rest.len() {
                    assert(rest[j + 1] == s[j + 2]);
                }
            }
            lemma_blank_runs_fixed(rest, member);
            assert(seq![s[0]] + rest =~= s);
        }
    }
}

/// Cutting runs of three or more line feeds leaves text without such runs unchanged.
proof fn lemma_newline_runs_fixed(s: Seq<char>, member: spec_fn(char) -> bool)
    requires
        forall|c: char| #[trigger] member(c) <==> c == '\n',
        no_triple_newline(s),
    ensures
        runs_replaced(s, member, 3, blank_line()) == s,
    decreases s.len(),
{
    if s.len() > 0 {
        if member(s[0]) {
            lemma_run_len(s, member);
            let k = run_len(s, member) as int;
            if k >= 3 {
                assert(member(s[1]) && member(s[2]));
                assert(s[0] == '\n');
            }
            let rest = s.skip(k);
            assert forall|j: int| #![trigger rest[j]] 0 <= j && j + 2 < rest.len() implies !(rest[j] == '\n'
                && rest[j + 1] == '\n' && rest[j + 2] == '\n') by {
                assert(rest[j] == s[j + k]);
                assert(rest[j + 1] == s[j + k + 1]);
                assert(rest[j + 2] == s[j + k + 2]);
            }
            lemma_newline_runs_fixed(rest, member);
            assert(s.take(k) + rest =~= s);
        } else {
            let rest = s.drop_first();
            assert forall|j: int| #![trigger rest[j]] 0 <= j && j + 2 < rest.len() implies !(rest[j] == '\n'
                && rest[j + 1] == '\n' && rest[j + 2] == '\n') by {
                assert(rest[j] == s[j + 1]);
                assert(rest[j + 1] == s[j + 2]);
                assert(rest[j + 2] == s[j + 3]);
            }
            lemma_newline_runs_fixed(rest, member);
            assert(seq![s[0]] + rest =~= s);
        }
    }
}

/// Splitting at a separator splits the two sides independently.
proof fn lemma_split_at_separator(a: Seq<char>, c: char, b: Seq<char>)
    ensures
        split_on(a + seq![c] + b, seq![c]) == split_on(a, seq![c]) + split_on(b, seq![c]),
    decreases a.len(),
{
    let pat = seq![c];
    let w = a + pat + b;
    lemma_first_match(a, pat);
    lemma_first_match(w, pat);
    match first_match(a, pat) {
        Some(i) => {
            assert(w.subrange(i, i + 1) =~= a.subrange(i, i + 1));
            assert(occurs_at(w, pat, i));
            match first_match(w, pat) {
                Some(m) => {
                    if m < i {
                        assert(w.subrange(m, m + 1) =~= a.subrange(m, m + 1));
                        assert(occurs_at(a, pat, m));
                    }
                    assert(m == i);
                },
                None => {},
            }
            assert(w.take(i) =~= a.take(i));
            assert(w.skip(i + 1) =~= a.skip(i + 1) + pat + b);
            lemma_split_at_separator(a.skip(i + 1), c, b);
            assert(split_on(a, pat) == seq![a.take(i)] + split_on(a.skip(i + 1), pat));
            assert(split_on(w, pat) == seq![w.take(i)] + split_on(w.skip(i + 1), pat));
            assert(seq![a.take(i)] + (split_on(a.skip(i + 1), pat) + split_on(b, pat)) =~= seq![a.take(i)]
                + split_on(a.skip(i + 1), pat) + split_on(b, pat));
        },
        None => {
            let n = a.len() as int;
            assert(w.subrange(n, n + 1) =~= pat);
            assert(occurs_at(w, pat, n));
            match first_match(w, pat) {
                Some(m) => {
                    if m < n {
                        assert(w.subrange(m, m + 1) =~= a.subrange(m, m + 1));
                        assert(occurs_at(a, pat, m));
                    }
                    assert(m == n);
                },
                None => {},
            }
            assert(w.take(n) =~= a);
            assert(w.skip(n + 1) =~= b);
            assert(split_on(a, pat) == seq![a]);
        },
    }
}

/// Trimming and filtering a concatenation of piece lists works piecewise.
proof fn lemma_trimmed_nonempty_concat(x: Seq<Seq<char>>, y: Seq<Seq<char>>)
    ensures
        trimmed_nonempty(x + y) == trimmed_nonempty(x) + trimmed_nonempty(y),
    decreases y.len(),
{
    if y.len() == 0 {
        assert(x + y =~= x);
        assert(trimmed_nonempty(x) + trimmed_nonempty(y) =~= trimmed_nonempty(x));
    } else {
        lemma_trimmed_nonempty_concat(x, y.drop_last());
        assert((x + y).drop_last() =~= x + y.drop_last());
        assert((x + y).last() == y.last());
        let t = trim(y.last());
        if t.len() > 0 {
            assert(trimmed_nonempty(x) + trimmed_nonempty(y.drop_last()).push(t) =~= (trimmed_nonempty(x)
                + trimmed_nonempty(y.drop_last())).push(t));
        }
    }
}


/// A line as normalisation keeps it: non-empty, not starting or ending with
/// whitespace, without line feed or carriage return, with single blanks.
pub open spec fn clean_line(l: Seq<char>) -> bool {
    &&& l.len() > 0
    &&& !is_ws(l[0])
    &&& !is_ws(l.last())
    &&& lacks(l, '\n')
    &&& lacks(l, '\r')
    &&& blanks_single(l)
}

proof fn lemma_trimmed_single(p: Seq<char>)
    ensures
        trimmed_nonempty(seq![p]) == (if trim(p).len() > 0 {
            seq![trim(p)]
        } else {
            Seq::<Seq<char>>::empty()
        }),
{
    let one = seq![p];
    assert(one.drop_last() =~= Seq::<Seq<char>>::empty());
    assert(trimmed_nonempty(Seq::<Seq<char>>::empty()) == Seq::<Seq<char>>::empty());
    assert(one.last() == p);
    if trim(p).len() > 0 {
        assert(Seq::<Seq<char>>::empty().push(trim(p)) =~= seq![trim(p)]);
    }
}

/// Splitting clean lines joined by blank lines at line feeds, then trimming and
/// dropping the empty pieces, gives the lines back.
proof fn lemma_lines_round_trip(ls: Seq<Seq<char>>)
    requires
        forall|i: int| 0 <= i < ls.len() ==> clean_line(#[trigger] ls[i]),
    ensures
        trimmed_nonempty(split_on(join(ls, blank_line()), seq!['\n'])) == ls,
    decreases ls.len(),
{
    let lf = seq!['\n'];
    let e = Seq::<char>::empty();
    if ls.len() == 0 {
        assert(split_on(e, lf) == seq![e]) by {
            lemma_first_match(e, lf);
        }
        assert(trim_start(e) == e);
        assert(trim_end(e) == e);
        lemma_trimmed_single(e);
    } else {
        let init = ls.drop_last();
        let last = ls.last();
        assert(clean_line(ls[ls.len() - 1]));
        lemma_trim_of_tidy(last);
        lemma_first_match(last, lf);
        match first_match(last, lf) {
            Some(m) => {
                assert(last.subrange(m, m + 1)[0] == last[m]);
            },
            None => {},
        }
        assert(split_on(last, lf) == seq![last]);
        if ls.len() == 1 {
            assert(join(ls, blank_line()) == last);
            lemma_trimmed_single(last);
            assert(ls =~= seq![last]);
        } else {
            assert forall|i: int| 0 <= i < init.len() implies clean_line(#[trigger] init[i]) by {
                assert(init[i] == ls[i]);
            }
            lemma_lines_round_trip(init);
            let j = join(init, blank_line());
            assert(join(ls, blank_line()) =~= j + lf + (lf + last));
            lemma_split_at_separator(j, '\n', lf + last);
            assert(lf + last =~= e + lf + last);
            lemma_split_at_separator(e, '\n', last);
            assert(split_on(e, lf) == seq![e]) by {
                lemma_first_match(e, lf);
            }
            let tail = seq![e] + seq![last];
            assert(split_on(lf + last, lf) == tail);
            lemma_trimmed_nonempty_concat(split_on(j, lf), tail);
            assert(trim_start(e) == e);
            assert(trim_end(e) == e);
            assert(tail.drop_last() =~= seq![e]);
            lemma_trimmed_single(e);
            assert(trimmed_nonempty(tail) =~= seq![last]);
            assert(init + seq![last] =~= ls);
        }
    }
}


/// Gluing two pieces keeps the three properties when the first ends in neither
/// a space nor a line feed.
proof fn lemma_concat_props(a: Seq<char>, b: Seq<char>)
    requires
        a.len() > 0,
        a.last() != '\n',
        a.last() != ' ',
        lacks(a, '\r'),
        lacks(b, '\r'),
        blanks_single(a),
        blanks_single(b),
        no_triple_newline(a),
        no_triple_newline(b),
    ensures
        lacks(a + b, '\r'),
        blanks_single(a + b),
        no_triple_newline(a + b),
{
    let w = a + b;
    let n = a.len() as int;
    assert forall|k: int| 0 <= k < w.len() implies #[trigger] w[k] != '\r' by {
        if k < n {
            assert(w[k] == a[k]);
        } else {
            assert(w[k] == b[k - n]);
        }
    }
    assert forall|k: int| 0 <= k < w.len() implies #[trigger] w[k] != '\t' && (w[k] == ' ' && k + 1 < w.len()
        ==> w[k + 1] != ' ') by {
        if k < n - 1 {
            assert(w[k] == a[k]);
            assert(w[k + 1] == a[k + 1]);
        } else if k == n - 1 {
            assert(w[k] == a[k]);
        } else {
            assert(w[k] == b[k - n]);
            if k + 1 < w.len() {
                assert(w[k + 1] == b[k + 1 - n]);
            }
        }
    }
    assert forall|k: int| #![trigger w[k]] 0 <= k && k + 2 < w.len() implies !(w[k] == '\n' && w[k + 1] == '\n'
        && w[k + 2] == '\n') by {
        if k + 2 < n {
            assert(w[k] == a[k]);
            assert(w[k + 1] == a[k + 1]);
            assert(w[k + 2] == a[k + 2]);
        } else if k >= n {
            assert(w[k] == b[k - n]);
            assert(w[k + 1] == b[k + 1 - n]);
            assert(w[k + 2] == b[k + 2 - n]);
        } else if k == n - 1 {
            assert(w[k] == a[n - 1]);
        } else if k + 1 == n - 1 {
            assert(w[k + 1] == a[n - 1]);
        } else {
            assert(w[k + 2] == a[n - 1]);
        }
    }
}

/// Clean lines joined by blank lines hold no carriage return, single blanks,
/// and no run of three line feeds.
proof fn lemma_join_clean(ls: Seq<Seq<char>>)
    requires
        forall|i: int| 0 <= i < ls.len() ==> clean_line(#[trigger] ls[i]),
    ensures
        lacks(join(ls, blank_line()), '\r'),
        blanks_single(join(ls, blank_line())),
        no_triple_newline(join(ls, blank_line())),
        ls.len() > 0 ==> join(ls, blank_line()).len() > 0 && join(ls, blank_line()).last() == ls.last().last(),
    decreases ls.len(),
{
    if ls.len() == 1 {
        assert(clean_line(ls[0]));
        let l = ls[0];
        assert forall|k: int| #![trigger l[k]] 0 <= k && k + 2 < l.len() implies !(l[k] == '\n' && l[k + 1]
            == '\n' && l[k + 2] == '\n') by {
            assert(l[k] != '\n');
        }
    } else if ls.len() > 1 {
        let init = ls.drop_last();
        let last = ls.last();
        assert(clean_line(ls[ls.len() - 1]));
        assert forall|i: int| 0 <= i < init.len() implies clean_line(#[trigger] init[i]) by {
            assert(init[i] == ls[i]);
        }
        lemma_join_clean(init);
        assert(clean_line(init[init.len() - 1]));
        let j = join(init, blank_line());
        let m = blank_line() + last;
        assert(join(ls, blank_line()) =~= j + m);
        assert forall|k: int| 0 <= k < m.len() implies #[trigger] m[k] != '\r' by {
            if k >= 2 {
                assert(m[k] == last[k - 2]);
            }
        }
        assert forall|k: int| 0 <= k < m.len() implies #[trigger] m[k] != '\t' && (m[k] == ' ' && k + 1
            < m.len() ==> m[k + 1] != ' ') by {
            if k >= 2 {
                assert(m[k] == last[k - 2]);
                if k + 1 < m.len() {
                    assert(m[k + 1] == last[k - 1]);
                }
            }
        }
        assert forall|k: int| #![trigger m[k]] 0 <= k && k + 2 < m.len() implies !(m[k] == '\n' && m[k + 1]
            == '\n' && m[k + 2] == '\n') by {
            assert(m[k + 2] == last[k]);
        }
        lemma_concat_props(j, m);
        assert((j + m).last() == last.last());
    }
}


/// No carriage return, and single blanks: what survives in every part of
/// collapsed text.
pub open spec fn steady(s: Seq<char>) -> bool {
    lacks(s, '\r') && blanks_single(s)
}

proof fn lemma_steady_subrange(s: Seq<char>, i: int, j: int)
    requires
        steady(s),
        0 <= i <= j <= s.len(),
    ensures
        steady(s.subrange(i, j)),
{
    let t = s.subrange(i, j);
    assert forall|k: int| 0 <= k < t.len() implies #[trigger] t[k] != '\r' by {
        assert(t[k] == s[k + i]);
    }
    assert forall|k: int| 0 <= k < t.len() implies #[trigger] t[k] != '\t' && (t[k] == ' ' && k + 1 < t.len()
        ==> t[k + 1] != ' ') by {
        assert(t[k] == s[k + i]);
        if k + 1 < t.len() {
            assert(t[k + 1] == s[k + i + 1]);
        }
    }
}

proof fn lemma_steady_concat(a: Seq<char>, b: Seq<char>)
    requires
        steady(a),
        steady(b),
        !(a.len() > 0 && b.len() > 0 && a.last() == ' ' && b[0] == ' '),
    ensures
        steady(a + b),
{
    let w = a + b;
    let n = a.len() as int;
    assert forall|k: int| 0 <= k < w.len() implies #[trigger] w[k] != '\r' by {
        if k < n {
            assert(w[k] == a[k]);
        } else {
            assert(w[k] == b[k - n]);
        }
    }
    assert forall|k: int| 0 <= k < w.len() implies #[trigger] w[k] != '\t' && (w[k] == ' ' && k + 1 < w.len()
        ==> w[k + 1] != ' ') by {
        if k < n - 1 {
            assert(w[k] == a[k]);
            assert(w[k + 1] == a[k + 1]);
        } else if k == n - 1 {
            assert(w[k] == a[k]);
            if k + 1 < w.len() {
                assert(w[k + 1] == b[0]);
            }
        } else {
            assert(w[k] == b[k - n]);
            if k + 1 < w.len() {
                assert(w[k + 1] == b[k + 1 - n]);
            }
        }
    }
}

proof fn lemma_join_lacks(parts: Seq<Seq<char>>, sep: Seq<char>, c: char)
    requires
        forall|i: int| 0 <= i < parts.len() ==> lacks(#[trigger] parts[i], c),
        lacks(sep, c),
    ensures
        lacks(join(parts, sep), c),
    decreases parts.len(),
{
    if parts.len() == 1 {
        assert(lacks(parts[0], c));
    } else if parts.len() > 1 {
        let init = parts.drop_last();
        assert forall|i: int| 0 <= i < init.len() implies lacks(#[trigger] init[i], c) by {
            assert(init[i] == parts[i]);
        }
        lemma_join_lacks(init, sep, c);
        assert(lacks(parts[parts.len() - 1], c));
        let j = join(init, sep);
        let w = j + sep + parts.last();
        assert forall|k: int| 0 <= k < w.len() implies #[trigger] w[k] != c by {
            if k < j.len() {
                assert(w[k] == j[k]);
            } else if k < j.len() + sep.len() {
                assert(w[k] == sep[k - j.len()]);
            } else {
                assert(w[k] == parts.last()[k - j.len() - sep.len()]);
            }
        }
    }
}

/// Unified newlines hold no carriage return.
proof fn lemma_unified_lacks_cr(text: Seq<char>)
    ensures
        lacks(newlines_unified(text), '\r'),
{
    let t = replaced(text, seq!['\r', '\n'], seq!['\n']);
    lemma_split_pieces_lack(t, '\r');
    let parts = split_on(t, seq!['\r']);
    assert forall|i: int| 0 <= i < parts.len() implies lacks(#[trigger] parts[i], '\r') by {}
    lemma_join_lacks(parts, seq!['\n'], '\r');
}

/// Collapsing runs of blanks leaves single blanks and no new carriage return.
proof fn lemma_blank_collapse(s: Seq<char>, member: spec_fn(char) -> bool)
    requires
        forall|c: char| #[trigger] member(c) <==> (c == ' ' || c == '\t'),
        lacks(s, '\r'),
    ensures
        steady(runs_replaced(s, member, 1, space())),
        runs_replaced(s, member, 1, space()).len() > 0 ==> s.len() > 0 && (runs_replaced(s, member, 1, space())[0]
            == ' ' <==> member(s[0])),
    decreases s.len(),
{
    let out = runs_replaced(s, member, 1, space());
    if s.len() > 0 {
        if member(s[0]) {
            lemma_run_len(s, member);
            let k = run_len(s, member) as int;
            let rest = s.skip(k);
            assert forall|j: int| 0 <= j < rest.len() implies #[trigger] rest[j] != '\r' by {
                assert(rest[j] == s[j + k]);
            }
            lemma_blank_collapse(rest, member);
            let r = runs_replaced(rest, member, 1, space());
            assert(steady(space()));
            if r.len() > 0 {
                assert(rest[0] == s[k]);
            }
            lemma_steady_concat(space(), r);
            assert(out == space() + r);
        } else {
            let rest = s.drop_first();
            assert forall|j: int| 0 <= j < rest.len() implies #[trigger] rest[j] != '\r' by {
                assert(rest[j] == s[j + 1]);
            }
            lemma_blank_collapse(rest, member);
            let r = runs_replaced(rest, member, 1, space());
            let first = seq![s[0]];
            assert(steady(first));
            lemma_steady_concat(first, r);
            assert(out == first + r);
        }
    }
}

/// Cutting runs of line feeds keeps text steady, and keeps its first character.
proof fn lemma_newline_collapse(s: Seq<char>, member: spec_fn(char) -> bool)
    requires
        forall|c: char| #[trigger] member(c) <==> c == '\n',
        steady(s),
    ensures
        steady(runs_replaced(s, member, 3, blank_line())),
        runs_replaced(s, member, 3, blank_line()).len() > 0 ==> s.len() > 0 && runs_replaced(
            s,
            member,
            3,
            blank_line(),
        )[0] == s[0],
    decreases s.len(),
{
    let out = runs_replaced(s, member, 3, blank_line());
    if s.len() > 0 {
        if member(s[0]) {
            lemma_run_len(s, member);
            let k = run_len(s, member) as int;
            let rest = s.skip(k);
            lemma_steady_subrange(s, k, s.len() as int);
            assert(rest =~= s.subrange(k, s.len() as int));
            lemma_newline_collapse(rest, member);
            let r = runs_replaced(rest, member, 3, blank_line());
            let x = if k >= 3 {
                blank_line()
            } else {
                s.take(k)
            };
            assert forall|j: int| 0 <= j < x.len() implies #[trigger] x[j] == '\n' by {
                if k < 3 {
                    assert(x[j] == s[j]);
                    assert(member(s[j]));
                }
            }
            assert(steady(x));
            lemma_steady_concat(x, r);
            assert(out == x + r);
        } else {
            let rest = s.drop_first();
            lemma_steady_subrange(s, 1, s.len() as int);
            assert(rest =~= s.subrange(1, s.len() as int));
            lemma_newline_collapse(rest, member);
            let r = runs_replaced(rest, member, 3, blank_line());
            let first = seq![s[0]];
            assert(steady(first));
            if r.len() > 0 && s[0] == ' ' {
                assert(rest[0] == s[1]);
            }
            lemma_steady_concat(first, r);
            assert(out == first + r);
        }
    }
}


/// The pieces of a steady text are steady.
proof fn lemma_split_pieces_steady(s: Seq<char>, c: char)
    requires
        steady(s),
    ensures
        forall|i: int| 0 <= i < split_on(s, seq![c]).len() ==> steady(#[trigger] split_on(s, seq![c])[i]),
    decreases s.len(),
{
    let pat = seq![c];
    lemma_first_match(s, pat);
    match first_match(s, pat) {
        None => {
            assert(split_on(s, pat) == seq![s]);
        },
        Some(i) => {
            let rest = s.skip(i + 1);
            lemma_steady_subrange(s, i + 1, s.len() as int);
            assert(rest =~= s.subrange(i + 1, s.len() as int));
            lemma_split_pieces_steady(rest, c);
            lemma_steady_subrange(s, 0, i);
            assert(s.take(i) =~= s.subrange(0, i));
            let parts = split_on(s, pat);
            assert(parts == seq![s.take(i)] + split_on(rest, pat));
            assert forall|j: int| 0 <= j < parts.len() implies steady(#[trigger] parts[j]) by {
                if j > 0 {
                    assert(parts[j] == split_on(rest, pat)[j - 1]);
                }
            }
        },
    }
}

proof fn lemma_trim_steady(p: Seq<char>)
    requires
        steady(p),
    ensures
        steady(trim(p)),
{
    lemma_trim_start_shape(p);
    let a = choose|k: int| 0 <= k <= p.len() && trim_start(p) == p.skip(k);
    let t = trim_start(p);
    lemma_trim_end_shape(t);
    let b = choose|k: int| 0 <= k <= t.len() && trim_end(t) == t.take(k);
    assert(trim(p) =~= p.subrange(a, a + b));
    lemma_steady_subrange(p, a, a + b);
}

proof fn lemma_trimmed_nonempty_steady(parts: Seq<Seq<char>>)
    requires
        forall|i: int| 0 <= i < parts.len() ==> steady(#[trigger] parts[i]),
    ensures
        forall|i: int| 0 <= i < trimmed_nonempty(parts).len() ==> steady(#[trigger] trimmed_nonempty(parts)[i]),
    decreases parts.len(),
{
    if parts.len() > 0 {
        let w = parts.drop_last();
        assert forall|i: int| 0 <= i < w.len() implies steady(#[trigger] w[i]) by {
            assert(w[i] == parts[i]);
        }
        lemma_trimmed_nonempty_steady(w);
        assert(parts[parts.len() - 1] == parts.last());
        lemma_trim_steady(parts.last());
        let r = trimmed_nonempty(parts);
        let rest = trimmed_nonempty(w);
        assert forall|i: int| 0 <= i < r.len() implies steady(#[trigger] r[i]) by {
            if i < rest.len() {
                assert(r[i] == rest[i]);
            }
        }
    }
}

/// Every line that normalisation keeps is clean.
proof fn lemma_normalized_lines_clean(text: Seq<char>)
    ensures
        forall|i: int| 0 <= i < normalized_lines(text).len() ==> clean_line(#[trigger] normalized_lines(text)[i]),
{
    let blank_member = |c: char| is_blank(c);
    let nl_member = |c: char| c == '\n';
    let u = newlines_unified(text);
    lemma_unified_lacks_cr(text);
    lemma_blank_collapse(u, blank_member);
    let c1 = runs_replaced(u, blank_member, 1, space());
    lemma_newline_collapse(c1, nl_member);
    let c2 = runs_replaced(c1, nl_member, 3, blank_line());
    lemma_split_pieces_steady(c2, '\n');
    lemma_trimmed_nonempty_steady(split_on(c2, seq!['\n']));
    lemma_normalized_shape(text);
    let ls = normalized_lines(text);
    assert(ls == trimmed_nonempty(split_on(c2, seq!['\n'])));
    assert forall|i: int| 0 <= i < ls.len() implies clean_line(#[trigger] ls[i]) by {
        assert(steady(ls[i]));
    }
}

/// Normalising whitespace twice gives what normalising once gives.
pub proof fn lemma_normalize_idempotent(text: Seq<char>)
    ensures
        normalized(normalized(text)) == normalized(text),
{
    let ls = normalized_lines(text);
    lemma_normalized_shape(text);
    lemma_normalized_lines_clean(text);
    let y = normalized(text);
    assert(y == join(ls, blank_line()));
    lemma_join_clean(ls);
    lemma_replaced_absent(y, seq!['\r', '\n'], seq!['\n']);
    lemma_replaced_absent(y, seq!['\r'], seq!['\n']);
    assert(newlines_unified(y) == y);
    let blank_member = |c: char| is_blank(c);
    let nl_member = |c: char| c == '\n';
    lemma_blank_runs_fixed(y, blank_member);
    lemma_newline_runs_fixed(y, nl_member);
    lemma_lines_round_trip(ls);
}


/// Splitting at a blank line that does not follow a line feed splits the two
/// sides independently.
proof fn lemma_split_at_blank_line(a: Seq<char>, b: Seq<char>)
    requires
        a.len() == 0 || a.last() != '\n',
    ensures
        split_on(a + blank_line() + b, blank_line()) == split_on(a, blank_line()) + split_on(b, blank_line()),
    decreases a.len(),
{
    let pat = blank_line();
    let w = a + pat + b;
    lemma_first_match(a, pat);
    lemma_first_match(w, pat);
    match first_match(a, pat) {
        Some(i) => {
            assert(w.subrange(i, i + 2) =~= a.subrange(i, i + 2));
            assert(occurs_at(w, pat, i));
            match first_match(w, pat) {
                Some(m) => {
                    if m < i {
                        assert(w.subrange(m, m + 2) =~= a.subrange(m, m + 2));
                        assert(occurs_at(a, pat, m));
                    }
                    assert(m == i);
                },
                None => {},
            }
            let rest = a.skip(i + 2);
            if rest.len() > 0 {
                assert(rest.last() == a.last());
            }
            assert(w.take(i) =~= a.take(i));
            assert(w.skip(i + 2) =~= rest + pat + b);
            lemma_split_at_blank_line(rest, b);
            assert(split_on(a, pat) == seq![a.take(i)] + split_on(rest, pat));
            assert(split_on(w, pat) == seq![w.take(i)] + split_on(w.skip(i + 2), pat));
            assert(seq![a.take(i)] + (split_on(rest, pat) + split_on(b, pat)) =~= seq![a.take(i)] + split_on(
                rest,
                pat,
            ) + split_on(b, pat));
        },
        None => {
            let n = a.len() as int;
            assert(w.subrange(n, n + 2) =~= pat);
            assert(occurs_at(w, pat, n));
            match first_match(w, pat) {
                Some(m) => {
                    if m + 2 <= n {
                        assert(w.subrange(m, m + 2) =~= a.subrange(m, m + 2));
                        assert(occurs_at(a, pat, m));
                    } else if m < n {
                        assert(m == n - 1);
                        assert(w.subrange(m, m + 2)[0] == w[m]);
                        assert(w[m] == a.last());
                    }
                    assert(m == n);
                },
                None => {},
            }
            assert(w.take(n) =~= a);
            assert(w.skip(n + 2) =~= b);
            assert(split_on(a, pat) == seq![a]);
        },
    }
}

proof fn lemma_join_first(ls: Seq<Seq<char>>, sep: Seq<char>)
    requires
        ls.len() > 0,
        ls[0].len() > 0,
    ensures
        join(ls, sep).len() > 0,
        join(ls, sep)[0] == ls[0][0],
    decreases ls.len(),
{
    if ls.len() > 1 {
        let init = ls.drop_last();
        assert(init[0] == ls[0]);
        lemma_join_first(init, sep);
        let j = join(init, sep);
        assert((j + sep + ls.last())[0] == j[0]);
    }
}

/// Clean lines joined by blank lines split at blank lines into the lines again.
proof fn lemma_split_clean_join(ls: Seq<Seq<char>>)
    requires
        ls.len() > 0,
        forall|i: int| 0 <= i < ls.len() ==> clean_line(#[trigger] ls[i]),
    ensures
        split_on(join(ls, blank_line()), blank_line()) == ls,
    decreases ls.len(),
{
    let pat = blank_line();
    let last = ls.last();
    assert(clean_line(ls[ls.len() - 1]));
    lemma_first_match(last, pat);
    match first_match(last, pat) {
        Some(m) => {
            assert(last.subrange(m, m + 2)[0] == last[m]);
        },
        None => {},
    }
    assert(split_on(last, pat) == seq![last]);
    if ls.len() == 1 {
        assert(ls =~= seq![last]);
    } else {
        let init = ls.drop_last();
        assert forall|i: int| 0 <= i < init.len() implies clean_line(#[trigger] init[i]) by {
            assert(init[i] == ls[i]);
        }
        lemma_split_clean_join(init);
        lemma_join_clean(init);
        assert(clean_line(init[init.len() - 1]));
        let j = join(init, pat);
        lemma_split_at_blank_line(j, last);
        assert(init + seq![last] =~= ls);
    }
}

/// Normalised text holds no carriage return, no tab and no two spaces in a
/// row, and is its own trim; when it is not empty, splitting it at blank lines
/// gives exactly the kept lines, each non-empty and without a line feed; and it
/// holds the words of the text, in order.
pub proof fn lemma_normalized_clean(text: Seq<char>)
    ensures
        lacks(normalized(text), '\r'),
        lacks(normalized(text), '\t'),
        forall|k: int|
            0 <= k && k + 1 < normalized(text).len() && #[trigger] normalized(text)[k] == ' ' ==> normalized(text)[k
                + 1] != ' ',
        trim(normalized(text)) == normalized(text),
        normalized(text).len() > 0 ==> split_on(normalized(text), blank_line()) == normalized_lines(text),
        forall|i: int|
            0 <= i < normalized_lines(text).len() ==> (#[trigger] normalized_lines(text)[i]).len() > 0 && lacks(
                normalized_lines(text)[i],
                '\n',
            ),
        crate::chars::words(normalized(text)) == crate::chars::words(text),
{
    let ls = normalized_lines(text);
    let y = normalized(text);
    lemma_normalized_shape(text);
    lemma_normalized_lines_clean(text);
    crate::text_laws::lemma_normalize_keeps_words(text);
    lemma_join_clean(ls);
    assert forall|k: int| 0 <= k < y.len() implies #[trigger] y[k] != '\t' by {
        assert(blanks_single(y));
    }
    assert forall|k: int| 0 <= k && k + 1 < y.len() && #[trigger] y[k] == ' ' implies y[k + 1] != ' ' by {
        assert(blanks_single(y));
    }
    if ls.len() > 0 {
        assert(clean_line(ls[0]));
        assert(clean_line(ls[ls.len() - 1]));
        lemma_join_first(ls, blank_line());
        lemma_trim_of_tidy(y);
        lemma_split_clean_join(ls);
    } else {
        assert(y =~= Seq::<char>::empty());
        assert(trim_start(y) == y);
        assert(trim_end(y) == y);
    }
}

} // verus!
