//! Character-level building blocks shared by the text, book and command modules:
//! Unicode whitespace, trimming, splitting on a pattern, joining, and the
//! conversions between `String` and vectors of characters.
use vstd::prelude::*;

verus! {

// ---------------------------------------------------------------------------
// Specifications
// ---------------------------------------------------------------------------

/// Unicode `White_Space`, the property behind `char::is_whitespace`.
pub open spec fn is_ws(c: char) -> bool {
    ||| c == ' '
    ||| ('\t' <= c && c <= '\r')
    ||| c == '\u{85}'
    ||| c == '\u{a0}'
    ||| c == '\u{1680}'
    ||| ('\u{2000}' <= c && c <= '\u{200a}')
    ||| c == '\u{2028}'
    ||| c == '\u{2029}'
    ||| c == '\u{202f}'
    ||| c == '\u{205f}'
    ||| c == '\u{3000}'
}

/// `s` with leading whitespace removed.
pub open spec fn trim_start(s: Seq<char>) -> Seq<char>
    decreases s.len(),
{
    if s.len() > 0 && is_ws(s[0]) {
        trim_start(s.drop_first())
    } else {
        s
    }
}

/// `s` with trailing whitespace removed.
pub open spec fn trim_end(s: Seq<char>) -> Seq<char>
    decreases s.len(),
{
    if s.len() > 0 && is_ws(s.last()) {
        trim_end(s.drop_last())
    } else {
        s
    }
}

/// `str::trim`: `s` without leading and trailing whitespace.
pub open spec fn trim(s: Seq<char>) -> Seq<char> {
    trim_end(trim_start(s))
}

/// `pat` occurs in `s` starting at index `i`.
pub open spec fn occurs_at(s: Seq<char>, pat: Seq<char>, i: int) -> bool {
    0 <= i && i + pat.len() <= s.len() && s.subrange(i, i + pat.len()) == pat
}

/// Index of the first occurrence of `pat` in `s` (`str::find`).
pub open spec fn first_match(s: Seq<char>, pat: Seq<char>) -> Option<int>
    decreases s.len(),
{
    if s.len() < pat.len() {
        None
    } else if s.take(pat.len() as int) == pat {
        Some(0)
    } else if s.len() == 0 {
        None
    } else {
        match first_match(s.drop_first(), pat) {
            Some(i) => Some(i + 1),
            None => None,
        }
    }
}

/// The pieces of `s` between the non-overlapping occurrences of a non-empty
/// `pat`, found from the left (`str::split` with a string pattern).
pub open spec fn split_on(s: Seq<char>, pat: Seq<char>) -> Seq<Seq<char>>
    decreases s.len(),
{
    if pat.len() == 0 {
        seq![s]
    } else {
        match first_match(s, pat) {
            None => seq![s],
            Some(i) => {
                proof {
                    lemma_first_match(s, pat);
                }
                seq![s.take(i)] + split_on(s.skip(i + pat.len()), pat)
            },
        }
    }
}

/// The pieces joined with `sep` between neighbours (`[T]::join`).
pub open spec fn join(parts: Seq<Seq<char>>, sep: Seq<char>) -> Seq<char>
    decreases parts.len(),
{
    if parts.len() == 0 {
        Seq::empty()
    } else if parts.len() == 1 {
        parts[0]
    } else {
        join(parts.drop_last(), sep) + sep + parts.last()
    }
}

/// Every occurrence of a non-empty `pat` replaced by `rep` (`str::replace`).
pub open spec fn replaced(s: Seq<char>, pat: Seq<char>, rep: Seq<char>) -> Seq<char> {
    join(split_on(s, pat), rep)
}

/// The pieces trimmed, with the ones that became empty left out.
pub open spec fn trimmed_nonempty(parts: Seq<Seq<char>>) -> Seq<Seq<char>>
    decreases parts.len(),
{
    if parts.len() == 0 {
        Seq::empty()
    } else {
        let rest = trimmed_nonempty(parts.drop_last());
        let t = trim(parts.last());
        if t.len() > 0 {
            rest.push(t)
        } else {
            rest
        }
    }
}

/// Number of leading non-whitespace characters.
pub open spec fn word_len(s: Seq<char>) -> nat
    decreases s.len(),
{
    if s.len() > 0 && !is_ws(s[0]) {
        1 + word_len(s.drop_first())
    } else {
        0
    }
}

/// The maximal runs of non-whitespace characters, in order (`str::split_whitespace`).
pub open spec fn words(s: Seq<char>) -> Seq<Seq<char>>
    decreases s.len(),
{
    if s.len() == 0 {
        Seq::empty()
    } else if is_ws(s[0]) {
        words(s.drop_first())
    } else {
        proof {
            lemma_word_len(s);
        }
        seq![s.take(word_len(s) as int)] + words(s.skip(word_len(s) as int))
    }
}

/// The character views of a vector of character vectors.
pub open spec fn views(v: Seq<Vec<char>>) -> Seq<Seq<char>> {
    v.map_values(|x: Vec<char>| x@)
}

/// The character views of a vector of strings.
pub open spec fn string_views(v: Seq<String>) -> Seq<Seq<char>> {
    v.map_values(|x: String| x@)
}

// ---------------------------------------------------------------------------
// Lemmas
// ---------------------------------------------------------------------------

/// Text that neither starts nor ends with whitespace is its own trim.
pub proof fn lemma_trim_of_tidy(t: Seq<char>)
    requires
        t.len() > 0,
        !is_ws(t[0]),
        !is_ws(t.last()),
    ensures
        trim(t) == t,
{
    assert(trim_start(t) == t);
    assert(trim_end(t) == t);
}

pub proof fn lemma_word_len(s: Seq<char>)
    ensures
        word_len(s) <= s.len(),
        forall|i: int| 0 <= i < word_len(s) ==> !is_ws(#[trigger] s[i]),
        word_len(s) < s.len() ==> is_ws(s[word_len(s) as int]),
        s.len() > 0 && !is_ws(s[0]) ==> word_len(s) >= 1,
    decreases s.len(),
{
    if s.len() > 0 && !is_ws(s[0]) {
        lemma_word_len(s.drop_first());
        assert forall|i: int| 0 <= i < word_len(s) implies !is_ws(#[trigger] s[i]) by {
            if i > 0 {
                assert(s[i] == s.drop_first()[i - 1]);
            }
        }
    }
}

/// The characterisation of `first_match` by its position.
pub proof fn lemma_first_match(s: Seq<char>, pat: Seq<char>)
    ensures
        match first_match(s, pat) {
            Some(m) => occurs_at(s, pat, m) && forall|k: int| 0 <= k < m ==> !occurs_at(s, pat, k),
            None => forall|k: int| !occurs_at(s, pat, k),
        },
    decreases s.len(),
{
    if s.len() < pat.len() {
    } else if s.take(pat.len() as int) == pat {
        assert(s.subrange(0, pat.len() as int) == s.take(pat.len() as int));
    } else {
        assert(s.len() > 0) by {
            if s.len() == 0 {
                assert(s.take(pat.len() as int) =~= pat);
            }
        }
        let t = s.drop_first();
        lemma_first_match(t, pat);
        assert forall|k: int| k >= 0 implies occurs_at(t, pat, k) == occurs_at(s, pat, k + 1) by {
            if k + pat.len() <= t.len() {
                assert(t.subrange(k, k + pat.len()) =~= s.subrange(k + 1, k + 1 + pat.len()));
            }
        }
        assert(!occurs_at(s, pat, 0)) by {
            assert(s.subrange(0, pat.len() as int) == s.take(pat.len() as int));
        }
        match first_match(t, pat) {
            Some(m) => {
                assert forall|k: int| 0 <= k < m + 1 implies !occurs_at(s, pat, k) by {
                    if k > 0 {
                        assert(occurs_at(t, pat, k - 1) == occurs_at(s, pat, k));
                    }
                }
            },
            None => {
                assert forall|k: int| !occurs_at(s, pat, k) by {
                    if k > 0 {
                        assert(occurs_at(t, pat, k - 1) == occurs_at(s, pat, k));
                    }
                }
            },
        }
    }
}

/// `first_match` found by its position.
pub proof fn lemma_first_match_at(s: Seq<char>, pat: Seq<char>, m: int)
    requires
        occurs_at(s, pat, m),
        forall|k: int| 0 <= k < m ==> !occurs_at(s, pat, k),
    ensures
        first_match(s, pat) == Some(m),
{
    lemma_first_match(s, pat);
    match first_match(s, pat) {
        Some(m2) => {
            if m2 < m {
                assert(!occurs_at(s, pat, m2));
            }
            if m < m2 {
                assert(!occurs_at(s, pat, m));
            }
        },
        None => {
            assert(!occurs_at(s, pat, m));
        },
    }
}

/// `first_match` is `None` exactly when there is no occurrence.
pub proof fn lemma_first_match_none(s: Seq<char>, pat: Seq<char>)
    requires
        forall|k: int| 0 <= k && k + pat.len() <= s.len() ==> !occurs_at(s, pat, k),
    ensures
        first_match(s, pat) is None,
{
    lemma_first_match(s, pat);
    if let Some(m) = first_match(s, pat) {
        assert(occurs_at(s, pat, m));
    }
}

/// `trim_start` drops exactly the leading run of whitespace.
pub proof fn lemma_trim_start_at(s: Seq<char>, k: int)
    requires
        0 <= k <= s.len(),
        forall|i: int| 0 <= i < k ==> is_ws(#[trigger] s[i]),
        k < s.len() ==> !is_ws(s[k]),
    ensures
        trim_start(s) == s.skip(k),
    decreases k,
{
    if k == 0 {
        assert(s.skip(0) =~= s);
    } else {
        let t = s.drop_first();
        assert forall|i: int| 0 <= i < k - 1 implies is_ws(#[trigger] t[i]) by {
            assert(t[i] == s[i + 1]);
        }
        if k - 1 < t.len() {
            assert(t[k - 1] == s[k]);
        }
        lemma_trim_start_at(t, k - 1);
        assert(t.skip(k - 1) =~= s.skip(k));
    }
}

/// `trim_end` drops exactly the trailing run of whitespace.
pub proof fn lemma_trim_end_at(s: Seq<char>, k: int)
    requires
        0 <= k <= s.len(),
        forall|i: int| k <= i < s.len() ==> is_ws(#[trigger] s[i]),
        k > 0 ==> !is_ws(s[k - 1]),
    ensures
        trim_end(s) == s.take(k),
    decreases s.len() - k,
{
    if k == s.len() {
        assert(s.take(k) =~= s);
    } else {
        let t = s.drop_last();
        assert forall|i: int| k <= i < t.len() implies is_ws(#[trigger] t[i]) by {
            assert(t[i] == s[i]);
        }
        if k > 0 {
            assert(t[k - 1] == s[k - 1]);
        }
        lemma_trim_end_at(t, k);
        assert(t.take(k) =~= s.take(k));
    }
}

/// Trimming is the subrange between the first and the last non-whitespace character.
pub proof fn lemma_trim_bounds(s: Seq<char>, a: int, b: int)
    requires
        0 <= a <= b <= s.len(),
        forall|i: int| 0 <= i < a ==> is_ws(#[trigger] s[i]),
        forall|i: int| b <= i < s.len() ==> is_ws(#[trigger] s[i]),
        a < b ==> !is_ws(s[a]) && !is_ws(s[b - 1]),
        a == b ==> b == s.len(),
    ensures
        trim(s) == s.subrange(a, b),
{
    lemma_trim_start_at(s, a);
    let t = s.skip(a);
    assert forall|i: int| b - a <= i < t.len() implies is_ws(#[trigger] t[i]) by {
        assert(t[i] == s[i + a]);
    }
    if b - a > 0 {
        assert(t[b - a - 1] == s[b - 1]);
    }
    lemma_trim_end_at(t, b - a);
    assert(t.take(b - a) =~= s.subrange(a, b));
}

// ---------------------------------------------------------------------------
// Executable helpers
// ---------------------------------------------------------------------------

/// Appends one character to a `String` (`String::push`).
#[verifier::external_body]
pub(crate) fn push_char(s: &mut String, c: char)
    ensures
        final(s)@ == old(s)@.push(c),
{
    s.push(c);
}

/// The characters of a string slice, in order.
pub fn chars_of(s: &str) -> (v: Vec<char>)
    ensures
        v@ == s@,
{
    let mut v: Vec<char> = Vec::new();
    for c in it: s.chars()
        invariant
            v@ == it.seq().take(it.index()),
    {
        v.push(c);
    }
    assert(v@ == s@);
    v
}

/// The string made of the characters `v[from..to]`.
pub fn string_of_range(v: &Vec<char>, from: usize, to: usize) -> (s: String)
    requires
        from <= to <= v@.len(),
    ensures
        s@ == v@.subrange(from as int, to as int),
{
    let mut s = String::new();
    let mut i = from;
    while i < to
        invariant
            from <= i <= to <= v@.len(),
            s@ == v@.subrange(from as int, i as int),
        decreases to - i,
    {
        push_char(&mut s, v[i]);
        assert(v@.subrange(from as int, i + 1) =~= v@.subrange(from as int, i as int).push(v@[i as int]));
        i += 1;
    }
    s
}

/// The string made of the characters of `v`.
pub fn string_of(v: &Vec<char>) -> (s: String)
    ensures
        s@ == v@,
{
    let s = string_of_range(v, 0, v.len());
    assert(v@.subrange(0, v@.len() as int) =~= v@);
    s
}

/// One string per character vector.
pub fn strings_of(parts: &Vec<Vec<char>>) -> (r: Vec<String>)
    ensures
        string_views(r@) == views(parts@),
{
    let mut r: Vec<String> = Vec::new();
    let mut i: usize = 0;
    while i < parts.len()
        invariant
            i <= parts@.len(),
            r@.len() == i,
            forall|j: int| 0 <= j < i ==> #[trigger] r@[j]@ == parts@[j]@,
        decreases parts@.len() - i,
    {
        r.push(string_of(&parts[i]));
        i += 1;
    }
    assert(string_views(r@) =~= views(parts@));
    r
}

/// `v[from..to]` as a new vector.
pub fn slice_vec(v: &Vec<char>, from: usize, to: usize) -> (r: Vec<char>)
    requires
        from <= to <= v@.len(),
    ensures
        r@ == v@.subrange(from as int, to as int),
{
    let mut r: Vec<char> = Vec::new();
    let mut i = from;
    while i < to
        invariant
            from <= i <= to <= v@.len(),
            r@ == v@.subrange(from as int, i as int),
        decreases to - i,
    {
        r.push(v[i]);
        assert(v@.subrange(from as int, i + 1) =~= v@.subrange(from as int, i as int).push(v@[i as int]));
        i += 1;
    }
    r
}

/// Appends the characters of `src` to `dst`.
pub fn append_chars(dst: &mut Vec<char>, src: &Vec<char>)
    ensures
        final(dst)@ == old(dst)@ + src@,
{
    let mut i: usize = 0;
    while i < src.len()
        invariant
            i <= src@.len(),
            dst@ == old(dst)@ + src@.subrange(0, i as int),
        decreases src@.len() - i,
    {
        dst.push(src[i]);
        assert(old(dst)@ + src@.subrange(0, i + 1) =~= old(dst)@ + src@.subrange(0, i as int) + seq![src@[i as int]]);
        i += 1;
    }
    assert(src@.subrange(0, src@.len() as int) =~= src@);
}

/// `char::is_whitespace`.
pub fn is_whitespace(c: char) -> (r: bool)
    ensures
        r == is_ws(c),
{
    c == ' ' || ('\t' <= c && c <= '\r') || c == '\u{85}' || c == '\u{a0}' || c == '\u{1680}'
        || ('\u{2000}' <= c && c <= '\u{200a}') || c == '\u{2028}' || c == '\u{2029}'
        || c == '\u{202f}' || c == '\u{205f}' || c == '\u{3000}'
}

/// The bounds `(a, b)` of `trim(v[from..to])` inside `v`.
pub fn trim_bounds(v: &Vec<char>, from: usize, to: usize) -> (r: (usize, usize))
    requires
        from <= to <= v@.len(),
    ensures
        from <= r.0 <= r.1 <= to,
        trim(v@.subrange(from as int, to as int)) == v@.subrange(r.0 as int, r.1 as int),
{
    let ghost s = v@.subrange(from as int, to as int);
    let mut a = from;
    while a < to && is_whitespace(v[a])
        invariant
            from <= a <= to <= v@.len(),
            forall|i: int| from <= i < a ==> is_ws(#[trigger] v@[i]),
        decreases to - a,
    {
        a += 1;
    }
    let mut b = to;
    while b > a && is_whitespace(v[b - 1])
        invariant
            from <= a <= b <= to <= v@.len(),
            forall|i: int| b <= i < to ==> is_ws(#[trigger] v@[i]),
        decreases b - a,
    {
        b -= 1;
    }
    proof {
        assert forall|i: int| 0 <= i < a - from implies is_ws(#[trigger] s[i]) by {
            assert(s[i] == v@[i + from]);
        }
        assert forall|i: int| b - from <= i < s.len() implies is_ws(#[trigger] s[i]) by {
            assert(s[i] == v@[i + from]);
        }
        if a < b {
            assert(s[a - from] == v@[a as int]);
            assert(s[b - from - 1] == v@[b - 1]);
        }
        if a == b && b < to {
            assert(!is_ws(v@[a as int]));
            assert(false);
        }
        lemma_trim_bounds(s, a - from, b - from);
        assert(s.subrange(a - from, b - from) =~= v@.subrange(a as int, b as int));
    }
    (a, b)
}

/// `trim(v)` as a new vector.
pub fn trimmed(v: &Vec<char>) -> (r: Vec<char>)
    ensures
        r@ == trim(v@),
{
    let (a, b) = trim_bounds(v, 0, v.len());
    assert(v@.subrange(0, v@.len() as int) =~= v@);
    slice_vec(v, a, b)
}

/// Whether `pat` occurs in `v` at index `i`.
pub fn occurs_at_exec(v: &Vec<char>, pat: &Vec<char>, i: usize) -> (r: bool)
    ensures
        r == occurs_at(v@, pat@, i as int),
{
    let n = v.len();
    let p = pat.len();
    if i > n || p > n - i {
        return false;
    }
    let mut k: usize = 0;
    while k < p
        invariant
            n == v@.len(),
            p == pat@.len(),
            i + p <= n,
            k <= pat@.len(),
            forall|j: int| 0 <= j < k ==> v@[i + j] == pat@[j],
        decreases pat@.len() - k,
    {
        if v[i + k] != pat[k] {
            assert(v@.subrange(i as int, i + pat@.len())[k as int] != pat@[k as int]);
            return false;
        }
        k += 1;
    }
    assert(v@.subrange(i as int, i + pat@.len()) =~= pat@);
    true
}

/// The first index at or after `from` where `pat` occurs in `v`.
pub fn find_from(v: &Vec<char>, pat: &Vec<char>, from: usize) -> (r: Option<usize>)
    requires
        from <= v@.len(),
    ensures
        match r {
            Some(i) => from <= i && first_match(v@.skip(from as int), pat@) == Some(i - from),
            None => first_match(v@.skip(from as int), pat@) is None,
        },
{
    let ghost t = v@.skip(from as int);
    let mut i = from;
    while i < v.len()
        invariant
            from <= i <= v@.len(),
            t == v@.skip(from as int),
            forall|k: int| 0 <= k < i - from ==> !occurs_at(t, pat@, k),
        decreases v@.len() + 1 - i,
    {
        if occurs_at_exec(v, pat, i) {
            proof {
                assert(t.subrange(i - from, i - from + pat@.len()) =~= v@.subrange(i as int, i + pat@.len()));
                lemma_first_match_at(t, pat@, i - from);
            }
            return Some(i);
        }
        proof {
            if i - from + pat@.len() <= t.len() {
                assert(t.subrange(i - from, i - from + pat@.len()) =~= v@.subrange(i as int, i + pat@.len()));
            }
        }
        i += 1;
    }
    if occurs_at_exec(v, pat, i) {
        proof {
            assert(t.subrange(i - from, i - from + pat@.len()) =~= v@.subrange(i as int, i + pat@.len()));
            lemma_first_match_at(t, pat@, i - from);
        }
        return Some(i);
    }
    proof {
        if i - from + pat@.len() <= t.len() {
            assert(t.subrange(i - from, i - from + pat@.len()) =~= v@.subrange(i as int, i + pat@.len()));
        }
        lemma_first_match_none(t, pat@);
    }
    None
}

/// The pieces of `v` between the occurrences of a non-empty `pat` (`str::split`).
pub fn split_chars(v: &Vec<char>, pat: &Vec<char>) -> (r: Vec<Vec<char>>)
    requires
        pat@.len() > 0,
    ensures
        views(r@) == split_on(v@, pat@),
{
    let n = v.len();
    let p = pat.len();
    let mut parts: Vec<Vec<char>> = Vec::new();
    let mut start: usize = 0;
    assert(v@.skip(0) =~= v@);
    loop
        invariant
            n == v@.len(),
            p == pat@.len(),
            p > 0,
            start <= n,
            split_on(v@, pat@) == views(parts@) + split_on(v@.skip(start as int), pat@),
        decreases n - start,
    {
        let ghost t = v@.skip(start as int);
        match find_from(v, pat, start) {
            Some(i) => {
                proof {
                    lemma_first_match(t, pat@);
                    assert(t.take(i - start) =~= v@.subrange(start as int, i as int));
                    assert(t.skip(i - start + p) =~= v@.skip(i + p));
                }
                let piece = slice_vec(v, start, i);
                let ghost old_parts = parts@;
                parts.push(piece);
                proof {
                    assert(views(parts@) =~= views(old_parts).push(piece@));
                    assert(views(old_parts) + split_on(t, pat@) =~= views(parts@) + split_on(v@.skip(i + p), pat@));
                }
                start = i + p;
            },
            None => {
                let piece = slice_vec(v, start, n);
                let ghost old_parts = parts@;
                parts.push(piece);
                proof {
                    assert(t =~= v@.subrange(start as int, n as int));
                    assert(views(parts@) =~= views(old_parts).push(piece@));
                    assert(views(old_parts) + split_on(t, pat@) =~= views(parts@));
                }
                return parts;
            },
        }
    }
}

/// The pieces joined with `sep` between neighbours (`[T]::join`).
pub fn join_chars(parts: &Vec<Vec<char>>, sep: &Vec<char>) -> (r: Vec<char>)
    ensures
        r@ == join(views(parts@), sep@),
{
    let mut r: Vec<char> = Vec::new();
    let mut i: usize = 0;
    while i < parts.len()
        invariant
            i <= parts@.len(),
            r@ == join(views(parts@).take(i as int), sep@),
        decreases parts@.len() - i,
    {
        let ghost ps = views(parts@);
        if i > 0 {
            append_chars(&mut r, sep);
        }
        append_chars(&mut r, &parts[i]);
        proof {
            assert(ps.take(i + 1).drop_last() =~= ps.take(i as int));
            assert(ps.take(i + 1).last() == parts@[i as int]@);
            if i == 0 {
                assert(ps.take(1)[0] == parts@[0]@);
                assert(r@ =~= parts@[0]@);
            }
        }
        i += 1;
    }
    assert(views(parts@).take(parts@.len() as int) =~= views(parts@));
    r
}

/// Every occurrence of a non-empty `pat` replaced by `rep` (`str::replace`).
pub fn replace_chars(v: &Vec<char>, pat: &Vec<char>, rep: &Vec<char>) -> (r: Vec<char>)
    requires
        pat@.len() > 0,
    ensures
        r@ == replaced(v@, pat@, rep@),
{
    let parts = split_chars(v, pat);
    join_chars(&parts, rep)
}

/// Each piece trimmed, the empty ones left out.
pub fn trim_each_nonempty(parts: &Vec<Vec<char>>) -> (r: Vec<Vec<char>>)
    ensures
        views(r@) == trimmed_nonempty(views(parts@)),
{
    let mut r: Vec<Vec<char>> = Vec::new();
    let mut i: usize = 0;
    while i < parts.len()
        invariant
            i <= parts@.len(),
            views(r@) == trimmed_nonempty(views(parts@).take(i as int)),
        decreases parts@.len() - i,
    {
        let ghost ps = views(parts@);
        let t = trimmed(&parts[i]);
        let ghost old_r = r@;
        if t.len() > 0 {
            r.push(t);
        }
        proof {
            assert(ps.take(i + 1).drop_last() =~= ps.take(i as int));
            assert(ps.take(i + 1).last() == parts@[i as int]@);
            assert(views(r@) =~= trimmed_nonempty(ps.take(i + 1)));
        }
        i += 1;
    }
    assert(views(parts@).take(parts@.len() as int) =~= views(parts@));
    r
}

/// `word_len` found by its position.
pub proof fn lemma_word_len_at(s: Seq<char>, m: int)
    requires
        0 <= m <= s.len(),
        forall|k: int| 0 <= k < m ==> !is_ws(#[trigger] s[k]),
        m < s.len() ==> is_ws(s[m]),
    ensures
        word_len(s) == m,
    decreases m,
{
    if m > 0 {
        let t = s.drop_first();
        assert forall|k: int| 0 <= k < m - 1 implies !is_ws(#[trigger] t[k]) by {
            assert(t[k] == s[k + 1]);
        }
        if m - 1 < t.len() {
            assert(t[m - 1] == s[m]);
        }
        lemma_word_len_at(t, m - 1);
    }
}

/// The whitespace-separated words of `v` (`str::split_whitespace`).
pub fn words_chars(v: &Vec<char>) -> (r: Vec<Vec<char>>)
    ensures
        views(r@) == words(v@),
{
    let n = v.len();
    let mut r: Vec<Vec<char>> = Vec::new();
    let mut i: usize = 0;
    assert(v@.skip(0) =~= v@);
    while i < n
        invariant
            n == v@.len(),
            i <= n,
            words(v@) == views(r@) + words(v@.skip(i as int)),
        decreases n - i,
    {
        let ghost t = v@.skip(i as int);
        if is_whitespace(v[i]) {
            assert(t.drop_first() =~= v@.skip(i + 1));
            i += 1;
        } else {
            let mut j = i;
            while j < n && !is_whitespace(v[j])
                invariant
                    n == v@.len(),
                    i <= j <= n,
                    forall|k: int| i <= k < j ==> !is_ws(#[trigger] v@[k]),
                decreases n - j,
            {
                j += 1;
            }
            proof {
                assert forall|k: int| 0 <= k < j - i implies !is_ws(#[trigger] t[k]) by {
                    assert(t[k] == v@[k + i]);
                }
                if j < n {
                    assert(t[j - i] == v@[j as int]);
                }
                lemma_word_len_at(t, j - i);
                assert(t.take(j - i) =~= v@.subrange(i as int, j as int));
                assert(t.skip(j - i) =~= v@.skip(j as int));
            }
            let w = slice_vec(v, i, j);
            let ghost old_r = r@;
            r.push(w);
            proof {
                assert(views(r@) =~= views(old_r).push(w@));
                assert(views(old_r) + words(t) =~= views(r@) + words(v@.skip(j as int)));
            }
            i = j;
        }
    }
    assert(v@.skip(n as int) =~= Seq::<char>::empty());
    assert(views(r@) + Seq::<Seq<char>>::empty() =~= views(r@));
    r
}

/// A copy of `v`.
pub fn copy_chars(v: &Vec<char>) -> (r: Vec<char>)
    ensures
        r@ == v@,
{
    let r = slice_vec(v, 0, v.len());
    assert(v@.subrange(0, v@.len() as int) =~= v@);
    r
}

/// `char::to_ascii_lowercase`.
pub open spec fn ascii_lower(c: char) -> char {
    if 'A' <= c && c <= 'Z' {
        ((c as u32) + 32) as char
    } else {
        c
    }
}

/// `str::to_ascii_lowercase`, character by character.
pub open spec fn lowered(s: Seq<char>) -> Seq<char> {
    s.map_values(|c: char| ascii_lower(c))
}

pub fn to_ascii_lower(c: char) -> (r: char)
    ensures
        r == ascii_lower(c),
{
    if 'A' <= c && c <= 'Z' {
        let b = c as u8;
        assert(b as u32 == c as u32);
        ((b + 32) as u8) as char
    } else {
        c
    }
}

/// `v` with ASCII letters lowered (`str::to_ascii_lowercase`).
pub fn lower_chars(v: &Vec<char>) -> (r: Vec<char>)
    ensures
        r@ == lowered(v@),
{
    let mut lower: Vec<char> = Vec::new();
    let mut i: usize = 0;
    while i < v.len()
        invariant
            i <= v@.len(),
            lower@ == lowered(v@).take(i as int),
        decreases v@.len() - i,
    {
        lower.push(to_ascii_lower(v[i]));
        assert(lowered(v@).take(i + 1) =~= lowered(v@).take(i as int).push(ascii_lower(v@[i as int])));
        i += 1;
    }
    assert(lowered(v@).take(v@.len() as int) =~= lowered(v@));
    lower
}

/// Whether two character vectors are equal.
pub fn chars_eq(a: &Vec<char>, b: &Vec<char>) -> (r: bool)
    ensures
        r == (a@ == b@),
{
    if a.len() != b.len() {
        return false;
    }
    let mut i: usize = 0;
    while i < a.len()
        invariant
            a@.len() == b@.len(),
            i <= a@.len(),
            forall|k: int| 0 <= k < i ==> a@[k] == b@[k],
        decreases a@.len() - i,
    {
        if a[i] != b[i] {
            return false;
        }
        i += 1;
    }
    assert(a@ =~= b@);
    true
}

/// Whether the characters of `v` spell the string `s`.
pub fn chars_eq_str(v: &Vec<char>, s: &str) -> (r: bool)
    ensures
        r == (v@ == s@),
{
    let w = chars_of(s);
    chars_eq(v, &w)
}

/// The string `a` followed by `b`.
pub fn concat_str(a: &str, b: &str) -> (r: String)
    ensures
        r@ == a@ + b@,
{
    let mut s = String::from_str(a);
    s.append(b);
    s
}

/// The decimal digit for `d` (0 to 9).
pub open spec fn digit_char(d: int) -> char {
    if d == 0 {
        '0'
    } else if d == 1 {
        '1'
    } else if d == 2 {
        '2'
    } else if d == 3 {
        '3'
    } else if d == 4 {
        '4'
    } else if d == 5 {
        '5'
    } else if d == 6 {
        '6'
    } else if d == 7 {
        '7'
    } else if d == 8 {
        '8'
    } else {
        '9'
    }
}

/// The decimal notation of `n`, as `{}` prints an integer.
pub open spec fn decimal(n: nat) -> Seq<char>
    decreases n,
{
    if n < 10 {
        seq![digit_char(n as int)]
    } else {
        decimal(n / 10).push(digit_char((n % 10) as int))
    }
}

/// `fill` repeated `n` times.
pub open spec fn repeated(fill: char, n: nat) -> Seq<char> {
    Seq::new(n, |i: int| fill)
}

/// `s` padded on the left with `fill` to `width` characters (`{:>width}`, `{:0width}`).
pub open spec fn pad_left(s: Seq<char>, width: nat, fill: char) -> Seq<char> {
    if s.len() < width {
        repeated(fill, (width - s.len()) as nat) + s
    } else {
        s
    }
}

/// `s` padded on the right with spaces to `width` characters (`{:<width}`).
pub open spec fn pad_right(s: Seq<char>, width: nat) -> Seq<char> {
    if s.len() < width {
        s + repeated(' ', (width - s.len()) as nat)
    } else {
        s
    }
}

fn digit_exec(d: usize) -> (r: char)
    requires
        d < 10,
    ensures
        r == digit_char(d as int),
{
    if d == 0 {
        '0'
    } else if d == 1 {
        '1'
    } else if d == 2 {
        '2'
    } else if d == 3 {
        '3'
    } else if d == 4 {
        '4'
    } else if d == 5 {
        '5'
    } else if d == 6 {
        '6'
    } else if d == 7 {
        '7'
    } else if d == 8 {
        '8'
    } else {
        '9'
    }
}

/// The decimal digits of `n`.
pub fn decimal_chars(n: usize) -> (r: Vec<char>)
    ensures
        r@ == decimal(n as nat),
    decreases n,
{
    if n < 10 {
        vec![digit_exec(n)]
    } else {
        let mut v = decimal_chars(n / 10);
        v.push(digit_exec(n % 10));
        v
    }
}

/// `v` padded on the left with `fill` to `width` characters.
pub fn pad_left_chars(v: &Vec<char>, width: usize, fill: char) -> (r: Vec<char>)
    ensures
        r@ == pad_left(v@, width as nat, fill),
{
    if v.len() < width {
        let mut r: Vec<char> = Vec::new();
        let k = width - v.len();
        let mut i: usize = 0;
        while i < k
            invariant
                i <= k,
                r@ == repeated(fill, i as nat),
            decreases k - i,
        {
            r.push(fill);
            assert(r@ =~= repeated(fill, (i + 1) as nat));
            i += 1;
        }
        append_chars(&mut r, v);
        r
    } else {
        copy_chars(v)
    }
}

/// `v` padded on the right with spaces to `width` characters.
pub fn pad_right_chars(v: &Vec<char>, width: usize) -> (r: Vec<char>)
    ensures
        r@ == pad_right(v@, width as nat),
{
    let mut r = copy_chars(v);
    if v.len() < width {
        let k = width - v.len();
        let mut i: usize = 0;
        while i < k
            invariant
                i <= k,
                k == width - v@.len(),
                r@ == v@ + repeated(' ', i as nat),
            decreases k - i,
        {
            r.push(' ');
            assert(r@ =~= v@ + repeated(' ', (i + 1) as nat));
            i += 1;
        }
    } else {
        assert(r@ == v@);
    }
    r
}

} // verus!
