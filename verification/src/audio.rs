//! The index arithmetic of audio post-processing: which samples survive
//! silence trimming, and how two synthesized pieces are joined. The sample
//! values themselves are floating point and are handled by the caller.
use vstd::prelude::*;
use crate::chars::{decimal, decimal_chars, string_of, concat_str};

verus! {

/// Number of leading `true` flags.
pub open spec fn leading_true(q: Seq<bool>) -> nat
    decreases q.len(),
{
    if q.len() > 0 && q[0] {
        1 + leading_true(q.drop_first())
    } else {
        0
    }
}

/// Number of trailing `true` flags.
pub open spec fn trailing_true(q: Seq<bool>) -> nat
    decreases q.len(),
{
    if q.len() > 0 && q.last() {
        1 + trailing_true(q.drop_last())
    } else {
        0
    }
}

/// The span of samples kept when trimming near-silence (`quiet[i]` tells that
/// sample `i` is below the threshold): the leading quiet run is dropped except
/// for `pad` samples when `trim_lead`, the trailing one likewise when
/// `trim_trail`; when nothing would be left, everything is kept.
pub open spec fn trim_span(quiet: Seq<bool>, pad: nat, trim_lead: bool, trim_trail: bool) -> (int, int) {
    let n = quiet.len() as int;
    let start: int = if trim_lead {
        let k = leading_true(quiet) as int;
        if k >= pad {
            k - pad
        } else {
            0
        }
    } else {
        0
    };
    let end: int = if trim_trail {
        let e = n - trailing_true(quiet.subrange(start, n)) as int;
        if e + pad <= n {
            e + pad
        } else {
            n
        }
    } else {
        n
    };
    if start >= end {
        (0, n)
    } else {
        (start, end)
    }
}

proof fn lemma_leading_true_at(q: Seq<bool>, k: int)
    requires
        0 <= k <= q.len(),
        forall|i: int| 0 <= i < k ==> #[trigger] q[i],
        k < q.len() ==> !q[k],
    ensures
        leading_true(q) == k,
    decreases k,
{
    if k > 0 {
        let t = q.drop_first();
        assert forall|i: int| 0 <= i < k - 1 implies #[trigger] t[i] by {
            assert(t[i] == q[i + 1]);
        }
        if k - 1 < t.len() {
            assert(t[k - 1] == q[k]);
        }
        lemma_leading_true_at(t, k - 1);
    }
}

proof fn lemma_trailing_true_at(q: Seq<bool>, k: int)
    requires
        0 <= k <= q.len(),
        forall|i: int| k <= i < q.len() ==> #[trigger] q[i],
        k > 0 ==> !q[k - 1],
    ensures
        trailing_true(q) == q.len() - k,
    decreases q.len() - k,
{
    if k < q.len() {
        let t = q.drop_last();
        assert forall|i: int| k <= i < t.len() implies #[trigger] t[i] by {
            assert(t[i] == q[i]);
        }
        if k > 0 {
            assert(t[k - 1] == q[k - 1]);
        }
        lemma_trailing_true_at(t, k);
    }
}

/// The span `[start, end)` of samples kept by silence trimming.
pub fn silence_trim_span(quiet: &Vec<bool>, pad: usize, trim_lead: bool, trim_trail: bool) -> (r: (usize, usize))
    ensures
        (r.0 as int, r.1 as int) == trim_span(quiet@, pad as nat, trim_lead, trim_trail),
        r.0 <= r.1 <= quiet@.len(),
{
    let n = quiet.len();
    let mut start: usize = 0;
    if trim_lead {
        while start < n && quiet[start]
            invariant
                n == quiet@.len(),
                start <= n,
                forall|i: int| 0 <= i < start ==> #[trigger] quiet@[i],
            decreases n - start,
        {
            start += 1;
        }
        proof {
            lemma_leading_true_at(quiet@, start as int);
        }
        start = start.saturating_sub(pad);
    }
    let mut end: usize = n;
    if trim_trail {
        while end > start && quiet[end - 1]
            invariant
                n == quiet@.len(),
                start <= end <= n,
                forall|i: int| end <= i < n ==> #[trigger] quiet@[i],
            decreases end - start,
        {
            end -= 1;
        }
        proof {
            let t = quiet@.subrange(start as int, n as int);
            assert forall|i: int| end - start <= i < t.len() implies #[trigger] t[i] by {
                assert(t[i] == quiet@[i + start]);
            }
            if end - start > 0 {
                assert(t[end - start - 1] == quiet@[end - 1]);
            }
            lemma_trailing_true_at(t, end - start);
        }
        end = if pad <= n - end { end + pad } else { n };
    }
    if start >= end {
        (0, n)
    } else {
        (start, end)
    }
}

/// How two pieces of audio are joined.
#[derive(Debug, Clone, Copy, PartialEq, Eq, Structural)]
pub enum JoinPlan {
    /// The first piece is empty: the result is the second.
    TakeSecond,
    /// The second piece is empty: the result is the first.
    TakeFirst,
    /// Trim the silence at the seam and crossfade.
    Crossfade,
}

/// The error for pieces at different sample rates.
pub open spec fn rate_mismatch_message(a: u32, b: u32) -> Seq<char> {
    "sample rate mismatch when concatenating audio: "@ + decimal(a as nat) + " vs "@ + decimal(b as nat)
}

/// The decision of `join_chunks` for pieces with these rates and lengths.
pub fn join_plan(a_rate: u32, b_rate: u32, a_len: usize, b_len: usize) -> (r: Result<JoinPlan, String>)
    ensures
        a_rate != b_rate ==> (r matches Err(e) && e@ == rate_mismatch_message(a_rate, b_rate)),
        a_rate == b_rate && a_len == 0 ==> r == Ok::<JoinPlan, String>(JoinPlan::TakeSecond),
        a_rate == b_rate && a_len > 0 && b_len == 0 ==> r == Ok::<JoinPlan, String>(JoinPlan::TakeFirst),
        a_rate == b_rate && a_len > 0 && b_len > 0 ==> r == Ok::<JoinPlan, String>(JoinPlan::Crossfade),
{
    if a_rate != b_rate {
        return Err(rate_mismatch(a_rate, b_rate));
    }
    if a_len == 0 {
        Ok(JoinPlan::TakeSecond)
    } else if b_len == 0 {
        Ok(JoinPlan::TakeFirst)
    } else {
        Ok(JoinPlan::Crossfade)
    }
}

/// The error for pieces at different sample rates.
pub fn rate_mismatch(a: u32, b: u32) -> (r: String)
    ensures
        r@ == rate_mismatch_message(a, b),
{
    let x = concat_str(
        "sample rate mismatch when concatenating audio: ",
        string_of(&decimal_chars(a as usize)).as_str(),
    );
    let y = concat_str(x.as_str(), " vs ");
    concat_str(y.as_str(), string_of(&decimal_chars(b as usize)).as_str())
}

/// The number of samples blended at the seam: the wanted crossfade length,
/// bounded by both pieces.
pub fn crossfade_len(wanted: usize, a_len: usize, b_len: usize) -> (r: usize)
    ensures
        r <= wanted,
        r <= a_len,
        r <= b_len,
        r == wanted || r == a_len || r == b_len,
{
    let f = if wanted < a_len { wanted } else { a_len };
    if f < b_len { f } else { b_len }
}

/// Silence trimming only removes near-silence: every sample that is not quiet
/// lies inside the kept span.
pub proof fn lemma_trim_keeps_sound(quiet: Seq<bool>, pad: nat, trim_lead: bool, trim_trail: bool, i: int)
    requires
        0 <= i < quiet.len(),
        !quiet[i],
    ensures
        trim_span(quiet, pad, trim_lead, trim_trail).0 <= i < trim_span(quiet, pad, trim_lead, trim_trail).1,
{
    lemma_leading_true_bound(quiet, i);
    let n = quiet.len() as int;
    let start: int = if trim_lead {
        let k = leading_true(quiet) as int;
        if k >= pad {
            k - pad
        } else {
            0
        }
    } else {
        0
    };
    assert(start <= i);
    let t = quiet.subrange(start, n);
    assert(t[i - start] == quiet[i]);
    lemma_trailing_true_bound(t, i - start);
}

proof fn lemma_leading_true_bound(q: Seq<bool>, i: int)
    requires
        0 <= i < q.len(),
        !q[i],
    ensures
        leading_true(q) <= i,
    decreases i,
{
    if i > 0 && q[0] {
        assert(q.drop_first()[i - 1] == q[i]);
        lemma_leading_true_bound(q.drop_first(), i - 1);
    }
}

proof fn lemma_trailing_true_bound(q: Seq<bool>, i: int)
    requires
        0 <= i < q.len(),
        !q[i],
    ensures
        trailing_true(q) <= q.len() - 1 - i,
    decreases q.len() - i,
{
    if i < q.len() - 1 && q.last() {
        assert(q.drop_last()[i] == q[i]);
        lemma_trailing_true_bound(q.drop_last(), i);
    }
}

} // verus!
