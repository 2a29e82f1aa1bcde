//! Audio output formats, MP3 encoding parameters and chapter output paths.
use vstd::prelude::*;
use crate::chars::{
    lowered, chars_of, lower_chars, chars_eq_str, decimal, decimal_chars, pad_left, pad_left_chars,
    string_of, concat_str,
};
use crate::book::opt_view;
use crate::paths::{
    std_path_extension, std_path_file_stem, std_path_parent, std_path_join, path_extension,
    path_file_stem, path_parent, path_join,
};

verus! {

/// Formats we can write from synthesized PCM.
#[derive(Debug, Clone, Copy, PartialEq, Eq, Structural)]
pub enum AudioFormat {
    Wav,
    Mp3,
}

/// The sample rates the MP3 encoder accepts, in the order they are tried.
pub open spec fn mp3_rates() -> Seq<u32> {
    seq![8_000u32, 11_025, 12_000, 16_000, 22_050, 24_000, 32_000, 44_100, 48_000]
}

/// The bit rates (kbps) the MP3 encoder accepts.
pub open spec fn mp3_bitrates() -> Seq<u32> {
    seq![8u32, 16, 24, 32, 40, 48, 56, 64, 80, 96, 112, 128, 144, 160, 192, 224, 256, 320]
}

/// The format for an optional file extension: MP3 for `mp3` in any ASCII case,
/// WAV otherwise.
pub open spec fn format_for_extension(ext: Option<Seq<char>>) -> AudioFormat {
    match ext {
        Some(e) => if lowered(e) == "mp3"@ {
            AudioFormat::Mp3
        } else {
            AudioFormat::Wav
        },
        None => AudioFormat::Wav,
    }
}

/// The file extension written for a format.
pub open spec fn format_extension(f: AudioFormat) -> Seq<char> {
    match f {
        AudioFormat::Wav => "wav"@,
        AudioFormat::Mp3 => "mp3"@,
    }
}

/// The distance between two rates.
pub open spec fn rate_distance(a: u32, b: u32) -> int {
    if a >= b {
        a - b
    } else {
        b - a
    }
}

/// The first of `rates` closest to `rate` (`Iterator::min_by_key` keeps the
/// first of equally close ones).
pub open spec fn nearest_in(rate: u32, rates: Seq<u32>) -> Option<u32>
    decreases rates.len(),
{
    if rates.len() == 0 {
        None
    } else {
        match nearest_in(rate, rates.drop_last()) {
            None => Some(rates.last()),
            Some(best) => if rate_distance(rate, rates.last()) < rate_distance(rate, best) {
                Some(rates.last())
            } else {
                Some(best)
            },
        }
    }
}

/// The sample rate audio is encoded at: its own when the encoder accepts it,
/// else the nearest accepted one.
pub open spec fn mp3_target_rate(rate: u32) -> u32 {
    if mp3_rates().contains(rate) {
        rate
    } else {
        nearest_in(rate, mp3_rates()).unwrap()
    }
}

/// The bit rate used for a sample rate: 192 kbps above 24 kHz (MPEG-1), else 160.
pub open spec fn mp3_bitrate(sample_rate: u32) -> u32 {
    if sample_rate > 24_000 {
        192
    } else {
        160
    }
}

/// A name for what `shine_rs::encode_pcm_to_mp3` produces for mono 16-bit PCM
/// at a sample rate and bit rate, or `None` when it reports an error.
pub uninterp spec fn shine_mp3_encoding(sample_rate: u32, bitrate: u32, pcm: Seq<i16>) -> Option<Seq<u8>>;

/// Four-digit zero-padded chapter number (`{:04}`).
pub open spec fn chapter_number(index: nat) -> Seq<char> {
    pad_left(decimal(index), 4, '0')
}

/// Where a chapter's audio goes, and which directory must exist first.
pub struct OutputPlan {
    pub create_dir: Option<String>,
    pub path: String,
}

/// The parts of a chapter output plan, given the extension, file stem and
/// parent of `out`: the directory to create first, and the directory and file
/// name to join (none when `out` itself is the file).
pub open spec fn output_parts_spec(
    out: Seq<char>,
    ext: Option<Seq<char>>,
    stem: Option<Seq<char>>,
    parent: Option<Seq<char>>,
    index: nat,
    multi: bool,
    out_is_dir: bool,
) -> (Option<Seq<char>>, Option<(Seq<char>, Seq<char>)>) {
    if !multi && !out_is_dir && ext is Some {
        (None, None)
    } else {
        let fmt_ext = format_extension(format_for_extension(ext));
        if multi && ext is Some && !out_is_dir {
            let stem = match stem {
                Some(s) => s,
                None => "chapter"@,
            };
            let parent = match parent {
                Some(p) => p,
                None => "."@,
            };
            (Some(parent), Some((parent, stem + "-"@ + chapter_number(index) + "."@ + fmt_ext)))
        } else {
            (Some(out), Some((out, chapter_number(index) + "."@ + fmt_ext)))
        }
    }
}

/// The plan `chapter_output_path` follows.
pub open spec fn output_plan_spec(out: Seq<char>, index: nat, multi: bool, out_is_dir: bool) -> (
    Option<Seq<char>>,
    Seq<char>,
) {
    let parts = output_parts_spec(
        out,
        std_path_extension(out),
        std_path_file_stem(out),
        std_path_parent(out),
        index,
        multi,
        out_is_dir,
    );
    (
        parts.0,
        match parts.1 {
            Some((dir, name)) => std_path_join(dir, name),
            None => out,
        },
    )
}

/// The parts of an output plan: the directory to create, and the directory
/// and file name to join, if `out` is not itself the file.
pub struct OutputParts {
    pub create_dir: Option<String>,
    pub join: Option<(String, String)>,
}

/// The view of optional joined parts.
pub open spec fn join_view(j: Option<(String, String)>) -> Option<(Seq<char>, Seq<char>)> {
    match j {
        Some((d, n)) => Some((d@, n@)),
        None => None,
    }
}

/// The decisions of `chapter_output_path`, from the extension, file stem and
/// parent of `out` (as `Path` gives them).
pub fn output_parts(
    out: &str,
    ext: Option<&str>,
    stem: Option<&str>,
    parent: Option<&str>,
    chapter_index: usize,
    multi_chapter: bool,
    out_is_dir: bool,
) -> (r: OutputParts)
    ensures
        (opt_view(r.create_dir), join_view(r.join)) == output_parts_spec(
            out@,
            match ext {
                Some(e) => Some(e@),
                None => None,
            },
            match stem {
                Some(e) => Some(e@),
                None => None,
            },
            match parent {
                Some(e) => Some(e@),
                None => None,
            },
            chapter_index as nat,
            multi_chapter,
            out_is_dir,
        ),
{
    if !multi_chapter && !out_is_dir && ext.is_some() {
        return OutputParts { create_dir: None, join: None };
    }
    let format = AudioFormat::from_extension(ext);
    let fmt_ext = format.extension();
    let number = chapter_number_string(chapter_index);
    if multi_chapter && ext.is_some() && !out_is_dir {
        let stem = match stem {
            Some(s) => String::from_str(s),
            None => String::from_str("chapter"),
        };
        let parent = match parent {
            Some(p) => String::from_str(p),
            None => String::from_str("."),
        };
        let a = concat_str(stem.as_str(), "-");
        let b = concat_str(a.as_str(), number.as_str());
        let c = concat_str(b.as_str(), ".");
        let name = concat_str(c.as_str(), fmt_ext);
        let dir = String::from_str(parent.as_str());
        OutputParts { create_dir: Some(parent), join: Some((dir, name)) }
    } else {
        let c = concat_str(number.as_str(), ".");
        let name = concat_str(c.as_str(), fmt_ext);
        OutputParts { create_dir: Some(String::from_str(out)), join: Some((String::from_str(out), name)) }
    }
}

impl AudioFormat {
    /// The format for an optional file extension (`mp3` in any ASCII case → MP3).
    pub fn from_extension(ext: Option<&str>) -> (r: AudioFormat)
        ensures
            r == format_for_extension(match ext {
                Some(e) => Some(e@),
                None => None,
            }),
    {
        match ext {
            Some(e) => {
                let low = lower_chars(&chars_of(e));
                if chars_eq_str(&low, "mp3") {
                    AudioFormat::Mp3
                } else {
                    AudioFormat::Wav
                }
            },
            None => AudioFormat::Wav,
        }
    }

    /// The format a path's extension selects: `.mp3` → MP3, else WAV.
    pub fn from_path(path: &str) -> (r: AudioFormat)
        ensures
            r == format_for_extension(std_path_extension(path@)),
    {
        match path_extension(path) {
            Some(e) => AudioFormat::from_extension(Some(e.as_str())),
            None => AudioFormat::from_extension(None),
        }
    }

    /// The file extension written for this format.
    pub fn extension(self) -> (r: &'static str)
        ensures
            r@ == format_extension(self),
    {
        match self {
            AudioFormat::Wav => "wav",
            AudioFormat::Mp3 => "mp3",
        }
    }
}

/// The first of `supported` closest to `rate`.
pub fn nearest_rate(rate: u32, supported: &Vec<u32>) -> (r: Option<u32>)
    ensures
        r == nearest_in(rate, supported@),
{
    let mut best: Option<u32> = None;
    let mut i: usize = 0;
    while i < supported.len()
        invariant
            i <= supported@.len(),
            best == nearest_in(rate, supported@.take(i as int)),
        decreases supported@.len() - i,
    {
        let r = supported[i];
        let d = if rate >= r { rate - r } else { r - rate };
        best = match best {
            None => Some(r),
            Some(b) => {
                let db = if rate >= b { rate - b } else { b - rate };
                if d < db {
                    Some(r)
                } else {
                    Some(b)
                }
            },
        };
        proof {
            let t = supported@.take(i + 1);
            assert(t.drop_last() =~= supported@.take(i as int));
            assert(t.last() == supported@[i as int]);
        }
        i += 1;
    }
    assert(supported@.take(supported@.len() as int) =~= supported@);
    best
}

/// The sample rates the MP3 encoder accepts.
pub fn mp3_sample_rates() -> (r: Vec<u32>)
    ensures
        r@ == mp3_rates(),
{
    let r = vec![8_000u32, 11_025, 12_000, 16_000, 22_050, 24_000, 32_000, 44_100, 48_000];
    assert(r@ =~= mp3_rates());
    r
}

/// The sample rate audio at `rate` is encoded at (resampled first when it
/// differs from `rate`).
pub fn mp3_sample_rate_for(rate: u32) -> (r: u32)
    ensures
        r == mp3_target_rate(rate),
        mp3_rates().contains(r),
{
    let rates = mp3_sample_rates();
    let mut i: usize = 0;
    while i < rates.len()
        invariant
            i <= rates@.len(),
            rates@ == mp3_rates(),
            forall|k: int| 0 <= k < i ==> rates@[k] != rate,
        decreases rates@.len() - i,
    {
        if rates[i] == rate {
            assert(mp3_rates().contains(rate));
            return rate;
        }
        i += 1;
    }
    assert(!mp3_rates().contains(rate));
    let n = nearest_rate(rate, &rates);
    proof {
        lemma_nearest_in_member(rate, mp3_rates());
    }
    n.unwrap()
}

proof fn lemma_nearest_in_member(rate: u32, rates: Seq<u32>)
    ensures
        rates.len() > 0 ==> (nearest_in(rate, rates) matches Some(b) && rates.contains(b)),
    decreases rates.len(),
{
    if rates.len() > 0 {
        lemma_nearest_in_member(rate, rates.drop_last());
        assert(rates[rates.len() - 1] == rates.last());
        if let Some(b) = nearest_in(rate, rates.drop_last()) {
            let k = choose|k: int| 0 <= k < rates.drop_last().len() && rates.drop_last()[k] == b;
            assert(rates[k] == b);
        }
    }
}

/// The bit rate used for a sample rate.
pub fn mp3_bitrate_for(sample_rate: u32) -> (r: u32)
    ensures
        r == mp3_bitrate(sample_rate),
{
    if sample_rate > 24_000 {
        192
    } else {
        160
    }
}

/// The error type of the MP3 encoder.
#[verifier::external_type_specification]
#[verifier::external_body]
pub struct ExEncoderError(shine_rs::EncoderError);

/// `shine_rs::encode_pcm_to_mp3` for mono PCM (one channel, mono mode, the
/// "original" flag set) at the given sample rate and bit rate. The contract ties
/// the outcome to `shine_mp3_encoding` and states what the crate's source shows:
/// the configuration is validated first, so an unsupported sample rate or bit
/// rate is an error, and so is empty input.
#[verifier::external_body]
fn shine_encode_mono(sample_rate: u32, bitrate: u32, pcm: &Vec<i16>) -> (r: Result<Vec<u8>, shine_rs::EncoderError>)
    ensures
        match r {
            Ok(b) => shine_mp3_encoding(sample_rate, bitrate, pcm@) == Some(b@),
            Err(_) => shine_mp3_encoding(sample_rate, bitrate, pcm@) is None,
        },
        !mp3_rates().contains(sample_rate) ==> r is Err,
        !mp3_bitrates().contains(bitrate) ==> r is Err,
        pcm@.len() == 0 ==> r is Err,
{
    let config = shine_rs::Mp3EncoderConfig::new()
        .sample_rate(sample_rate)
        .bitrate(bitrate)
        .channels(1)
        .stereo_mode(shine_rs::StereoMode::Mono)
        .original(true);
    shine_rs::encode_pcm_to_mp3(config, pcm)
}

/// The encoder's own description of an error (its `Display`).
#[verifier::external_body]
fn encoder_error_text(e: &shine_rs::EncoderError) -> String {
    format!("{e}")
}

/// Encodes mono 16-bit PCM at a sample rate the encoder accepts as MP3, at the
/// bit rate chosen for that rate.
pub fn encode_mp3(pcm: &Vec<i16>, sample_rate: u32) -> (r: Result<Vec<u8>, String>)
    ensures
        match shine_mp3_encoding(sample_rate, mp3_bitrate(sample_rate), pcm@) {
            Some(b) => r matches Ok(v) && v@ == b,
            None => r is Err,
        },
        pcm@.len() == 0 ==> r is Err,
        !mp3_rates().contains(sample_rate) ==> r is Err,
        r matches Err(e) ==> exists|detail: Seq<char>| e@ == "MP3 encode failed: "@ + detail,
{
    let bitrate = mp3_bitrate_for(sample_rate);
    match shine_encode_mono(sample_rate, bitrate, pcm) {
        Ok(bytes) => Ok(bytes),
        Err(e) => {
            let text = encoder_error_text(&e);
            let msg = concat_str("MP3 encode failed: ", text.as_str());
            assert(msg@ == "MP3 encode failed: "@ + text@);
            Err(msg)
        },
    }
}

/// Four-digit zero-padded chapter number.
pub fn chapter_number_string(index: usize) -> (r: String)
    ensures
        r@ == chapter_number(index as nat),
{
    string_of(&pad_left_chars(&decimal_chars(index), 4, '0'))
}

/// Resolve output path for a chapter, honoring directory vs file and format
/// extension. `out_is_dir` tells whether `out` names an existing directory.
pub fn chapter_output_plan(out: &str, chapter_index: usize, multi_chapter: bool, out_is_dir: bool) -> (r: OutputPlan)
    ensures
        (match r.create_dir {
            Some(d) => Some(d@),
            None => None,
        }, r.path@) == output_plan_spec(out@, chapter_index as nat, multi_chapter, out_is_dir),
{
    let ext = path_extension(out);
    let stem = path_file_stem(out);
    let parent = path_parent(out);
    let ext_ref = match &ext {
        Some(e) => Some(e.as_str()),
        None => None,
    };
    let stem_ref = match &stem {
        Some(e) => Some(e.as_str()),
        None => None,
    };
    let parent_ref = match &parent {
        Some(e) => Some(e.as_str()),
        None => None,
    };
    let parts = output_parts(out, ext_ref, stem_ref, parent_ref, chapter_index, multi_chapter, out_is_dir);
    let path = match &parts.join {
        Some((dir, name)) => path_join(dir.as_str(), name.as_str()),
        None => String::from_str(out),
    };
    OutputPlan { create_dir: parts.create_dir, path }
}

// ---------------------------------------------------------------------------
// Laws
// ---------------------------------------------------------------------------

/// The extension written for a format selects that format again.
pub proof fn lemma_format_extension_round_trip(f: AudioFormat)
    ensures
        format_for_extension(Some(format_extension(f))) == f,
{
    reveal_strlit("mp3");
    reveal_strlit("wav");
    assert(lowered("mp3"@) =~= "mp3"@);
    assert(lowered("wav"@) =~= "wav"@);
    assert("wav"@[0] != "mp3"@[0]);
}

/// The rate audio is encoded at is always one the encoder accepts, and audio
/// already at an accepted rate keeps it.
pub proof fn lemma_mp3_target_rate_supported(rate: u32)
    ensures
        mp3_rates().contains(mp3_target_rate(rate)),
        mp3_rates().contains(rate) ==> mp3_target_rate(rate) == rate,
{
    lemma_nearest_in_member(rate, mp3_rates());
}

} // verus!
