use epub_tts::audio::{crossfade_len, join_plan, silence_trim_span, JoinPlan};

#[test]
fn trim_span_drops_edge_silence_with_pad() {
    let quiet = vec![true, true, true, false, false, true, true, true];
    assert_eq!(silence_trim_span(&quiet, 1, true, true), (2, 6));
    assert_eq!(silence_trim_span(&quiet, 0, true, false), (3, 8));
    assert_eq!(silence_trim_span(&quiet, 0, false, true), (0, 5));
    assert_eq!(silence_trim_span(&quiet, 10, true, true), (0, 8));
}

#[test]
fn trim_span_of_all_silence_keeps_everything() {
    let quiet = vec![true; 5];
    assert_eq!(silence_trim_span(&quiet, 0, true, true), (0, 5));
    assert_eq!(silence_trim_span(&vec![], 3, true, true), (0, 0));
}

#[test]
fn join_decisions() {
    assert_eq!(join_plan(24_000, 24_000, 0, 5), Ok(JoinPlan::TakeSecond));
    assert_eq!(join_plan(24_000, 24_000, 5, 0), Ok(JoinPlan::TakeFirst));
    assert_eq!(join_plan(24_000, 24_000, 5, 5), Ok(JoinPlan::Crossfade));
    assert_eq!(
        join_plan(24_000, 22_050, 5, 5),
        Err("sample rate mismatch when concatenating audio: 24000 vs 22050".to_string())
    );
    assert_eq!(crossfade_len(288, 100, 500), 100);
    assert_eq!(crossfade_len(288, 1000, 500), 288);
}

#[test]
fn trimming_keeps_every_loud_sample() {
    let quiet = vec![true, false, true, true, false, true, true];
    for pad in 0..4 {
        for (lead, trail) in [(true, true), (true, false), (false, true), (false, false)] {
            let (s, e) = silence_trim_span(&quiet, pad, lead, trail);
            assert!(s <= 1 && 4 < e && e <= quiet.len());
        }
    }
}
