//! Speech-backend selection: backend and device names, language tags, the
//! default speaker, and the settings an engine is loaded with.
use vstd::prelude::*;
use crate::chars::{
    trim, trim_start, trim_end, is_ws, ascii_lower, lowered, chars_of, lower_chars, chars_eq_str, trimmed, string_of, concat_str,
    push_char, lemma_trim_of_tidy,
};
use crate::book::opt_view;

verus! {

/// TTS backend / model family.
#[derive(Debug, Clone, Copy, PartialEq, Eq, Structural)]
pub enum Backend {
    Kokoro,
    OmniVoice,
    Qwen3Tts,
    VibeVoice,
    VibeVoiceRealtime,
    Voxtral,
}

/// Compute device for synthesis.
#[derive(Debug, Clone, Copy, PartialEq, Eq, Structural)]
pub enum DeviceKind {
    Auto,
    Cpu,
    Metal,
    Cuda,
}

/// The model families a speech engine can load.
#[derive(Debug, Clone, Copy, PartialEq, Eq, Structural)]
pub enum ModelFamily {
    Kokoro,
    OmniVoice,
    Qwen3Tts,
    VibeVoice,
    VibeVoiceRealtime,
    Voxtral,
}

/// Which model families this build was made with.
#[derive(Debug, Clone, Copy, PartialEq, Eq, Structural)]
pub struct BuildFeatures {
    pub kokoro: bool,
    pub omnivoice: bool,
    pub qwen3_tts: bool,
    pub vibevoice: bool,
    pub voxtral: bool,
}

/// What the user asked the engine for.
#[derive(Debug, Clone)]
pub struct TtsOptions {
    pub backend: Backend,
    pub model_path: Option<String>,
    pub device: DeviceKind,
    pub language: Option<String>,
    pub voice: Option<String>,
    pub instruct: Option<String>,
}

/// What an engine is loaded with once defaults are filled in.
#[derive(Debug, Clone)]
pub struct EngineSettings {
    pub language: Option<String>,
    pub voice: Option<String>,
    pub instruct: Option<String>,
}

// ---------------------------------------------------------------------------
// Specifications
// ---------------------------------------------------------------------------

/// The canonical name of a backend.
pub open spec fn backend_name(b: Backend) -> Seq<char> {
    match b {
        Backend::Kokoro => "kokoro"@,
        Backend::OmniVoice => "omnivoice"@,
        Backend::Qwen3Tts => "qwen3"@,
        Backend::VibeVoice => "vibevoice"@,
        Backend::VibeVoiceRealtime => "vibevoice-realtime"@,
        Backend::Voxtral => "voxtral"@,
    }
}

/// The backend a lower-case name (or alias) stands for.
pub open spec fn backend_from_name(n: Seq<char>) -> Option<Backend> {
    if n == "kokoro"@ {
        Some(Backend::Kokoro)
    } else if n == "omnivoice"@ || n == "omni"@ {
        Some(Backend::OmniVoice)
    } else if n == "qwen3"@ || n == "qwen3-tts"@ || n == "qwen"@ {
        Some(Backend::Qwen3Tts)
    } else if n == "vibevoice"@ || n == "vibe"@ {
        Some(Backend::VibeVoice)
    } else if n == "vibevoice-realtime"@ || n == "vibe-realtime"@ || n == "realtime"@ {
        Some(Backend::VibeVoiceRealtime)
    } else if n == "voxtral"@ {
        Some(Backend::Voxtral)
    } else {
        None
    }
}

/// The error for an unknown backend name.
pub open spec fn unknown_backend_message(name: Seq<char>) -> Seq<char> {
    "unknown backend '"@ + name
        + "'. Choose: kokoro, omnivoice, qwen3, vibevoice, vibevoice-realtime, voxtral"@
}

/// The device a lower-case name stands for.
pub open spec fn device_from_name(n: Seq<char>) -> Option<DeviceKind> {
    if n == "auto"@ {
        Some(DeviceKind::Auto)
    } else if n == "cpu"@ {
        Some(DeviceKind::Cpu)
    } else if n == "metal"@ {
        Some(DeviceKind::Metal)
    } else if n == "cuda"@ {
        Some(DeviceKind::Cuda)
    } else {
        None
    }
}

/// The error for an unknown device name.
pub open spec fn unknown_device_message(name: Seq<char>) -> Seq<char> {
    "unknown device '"@ + name + "'. Choose: auto, cpu, metal, cuda"@
}

/// The model family a backend loads.
pub open spec fn model_family(b: Backend) -> ModelFamily {
    match b {
        Backend::Kokoro => ModelFamily::Kokoro,
        Backend::OmniVoice => ModelFamily::OmniVoice,
        Backend::Qwen3Tts => ModelFamily::Qwen3Tts,
        Backend::VibeVoice => ModelFamily::VibeVoice,
        Backend::VibeVoiceRealtime => ModelFamily::VibeVoiceRealtime,
        Backend::Voxtral => ModelFamily::Voxtral,
    }
}

/// Whether a build includes the backend's model family.
pub open spec fn backend_enabled(b: Backend, f: BuildFeatures) -> bool {
    match b {
        Backend::Kokoro => f.kokoro,
        Backend::OmniVoice => f.omnivoice,
        Backend::Qwen3Tts => f.qwen3_tts,
        Backend::VibeVoice => f.vibevoice,
        Backend::VibeVoiceRealtime => f.vibevoice,
        Backend::Voxtral => f.voxtral,
    }
}

/// The error for a backend the build does not include.
pub open spec fn missing_feature_message(b: Backend) -> Seq<char> {
    match b {
        Backend::Kokoro => "backend 'kokoro' requires --features kokoro"@,
        Backend::OmniVoice => "backend 'omnivoice' requires --features omnivoice"@,
        Backend::Qwen3Tts => "backend 'qwen3' requires --features qwen3-tts"@,
        Backend::VibeVoice => "backend 'vibevoice' requires --features vibevoice"@,
        Backend::VibeVoiceRealtime => "backend 'vibevoice-realtime' requires --features vibevoice"@,
        Backend::Voxtral => "backend 'voxtral' requires --features voxtral"@,
    }
}

/// The features of the default build: Qwen3-TTS only.
pub open spec fn default_features() -> BuildFeatures {
    BuildFeatures { kokoro: false, omnivoice: false, qwen3_tts: true, vibevoice: false, voxtral: false }
}

/// `s` up to the first `-` or `_` (the primary subtag of a language tag).
pub open spec fn tag_prefix(s: Seq<char>) -> Seq<char>
    decreases s.len(),
{
    if s.len() == 0 || s[0] == '-' || s[0] == '_' {
        Seq::empty()
    } else {
        seq![s[0]] + tag_prefix(s.drop_first())
    }
}

/// The lower-cased primary subtag of a trimmed language tag.
pub open spec fn language_short(lang: Seq<char>) -> Seq<char> {
    lowered(tag_prefix(trim(lang)))
}

/// The language name Qwen3 checkpoints expect for a short tag.
pub open spec fn qwen3_language(short: Seq<char>) -> Option<Seq<char>> {
    if short == "en"@ || short == "eng"@ || short == "english"@ {
        Some("English"@)
    } else if short == "zh"@ || short == "cmn"@ || short == "chinese"@ || short == "zho"@ {
        Some("Chinese"@)
    } else if short == "ja"@ || short == "jpn"@ || short == "japanese"@ {
        Some("Japanese"@)
    } else if short == "ko"@ || short == "kor"@ || short == "korean"@ {
        Some("Korean"@)
    } else if short == "de"@ || short == "deu"@ || short == "german"@ {
        Some("German"@)
    } else if short == "fr"@ || short == "fra"@ || short == "fre"@ || short == "french"@ {
        Some("French"@)
    } else if short == "ru"@ || short == "rus"@ || short == "russian"@ {
        Some("Russian"@)
    } else if short == "pt"@ || short == "por"@ || short == "portuguese"@ {
        Some("Portuguese"@)
    } else if short == "es"@ || short == "spa"@ || short == "spanish"@ {
        Some("Spanish"@)
    } else if short == "it"@ || short == "ita"@ || short == "italian"@ {
        Some("Italian"@)
    } else if short == "auto"@ {
        Some("auto"@)
    } else {
        None
    }
}

/// The language tag a backend is given for the user's tag.
pub open spec fn normalized_language(b: Backend, lang: Seq<char>) -> Seq<char> {
    if b == Backend::Qwen3Tts {
        match qwen3_language(language_short(lang)) {
            Some(n) => n,
            None => trim(lang),
        }
    } else {
        language_short(lang)
    }
}

/// The speakers to try, in order, for a Qwen3 language name.
pub open spec fn preferred_voices(language: Option<Seq<char>>) -> Seq<Seq<char>> {
    match language {
        None => seq!["Vivian"@, "Ryan"@, "Aiden"@, "Serena"@],
        Some(l) => if l == "English"@ {
            seq!["Vivian"@, "Ryan"@, "Aiden"@, "Serena"@]
        } else if l == "Chinese"@ {
            seq!["Vivian"@, "Serena"@, "Uncle_Fu"@, "Dylan"@]
        } else if l == "Japanese"@ {
            seq!["Ono_Anna"@, "Sohee"@]
        } else if l == "Korean"@ {
            seq!["Sohee"@, "Ono_Anna"@]
        } else {
            seq!["Vivian"@, "Ryan"@, "Aiden"@]
        },
    }
}

/// Some voice equals `name` up to ASCII case.
pub open spec fn has_voice(voices: Seq<Seq<char>>, name: Seq<char>) -> bool {
    exists|i: int| 0 <= i < voices.len() && lowered(#[trigger] voices[i]) == lowered(name)
}

/// The first preferred name that the model offers.
pub open spec fn first_available(pref: Seq<Seq<char>>, voices: Seq<Seq<char>>) -> Option<Seq<char>>
    decreases pref.len(),
{
    if pref.len() == 0 {
        None
    } else if has_voice(voices, pref[0]) {
        Some(pref[0])
    } else {
        first_available(pref.drop_first(), voices)
    }
}

/// The Qwen3 speaker used when the user names none.
pub open spec fn qwen3_default_voice(voices: Seq<Seq<char>>, language: Option<Seq<char>>) -> Seq<char> {
    if voices.len() == 0 {
        "Vivian"@
    } else {
        match first_available(preferred_voices(language), voices) {
            Some(n) => n,
            None => voices[0],
        }
    }
}

/// The views of a vector of strings.
pub open spec fn strs(v: Seq<String>) -> Seq<Seq<char>> {
    v.map_values(|s: String| s@)
}

/// `s` cut to `max` characters followed by an ellipsis when it is longer.
pub open spec fn truncated_after(s: Seq<char>, max: nat) -> Seq<char> {
    if s.len() <= max {
        s
    } else {
        s.take(max as int).push('…')
    }
}

// ---------------------------------------------------------------------------
// Executable code
// ---------------------------------------------------------------------------

impl Backend {
    /// The canonical name of the backend.
    pub fn as_str(self) -> (r: &'static str)
        ensures
            r@ == backend_name(self),
    {
        match self {
            Backend::Kokoro => "kokoro",
            Backend::OmniVoice => "omnivoice",
            Backend::Qwen3Tts => "qwen3",
            Backend::VibeVoice => "vibevoice",
            Backend::VibeVoiceRealtime => "vibevoice-realtime",
            Backend::Voxtral => "voxtral",
        }
    }

    /// The model family to load, given which families the build includes.
    pub fn model_type_for(self, features: BuildFeatures) -> (r: Result<ModelFamily, String>)
        ensures
            backend_enabled(self, features) ==> r == Ok::<ModelFamily, String>(model_family(self)),
            !backend_enabled(self, features) ==> (r matches Err(e) && e@ == missing_feature_message(self)),
            self == Backend::Kokoro ==> (features.kokoro ==> r == Ok::<ModelFamily, String>(ModelFamily::Kokoro))
                && (!features.kokoro ==> r is Err),
            self == Backend::OmniVoice ==> (features.omnivoice ==> r == Ok::<ModelFamily, String>(
                ModelFamily::OmniVoice,
            )) && (!features.omnivoice ==> r is Err),
            self == Backend::Qwen3Tts ==> (features.qwen3_tts ==> r == Ok::<ModelFamily, String>(
                ModelFamily::Qwen3Tts,
            )) && (!features.qwen3_tts ==> r is Err),
            self == Backend::VibeVoice ==> (features.vibevoice ==> r == Ok::<ModelFamily, String>(
                ModelFamily::VibeVoice,
            )) && (!features.vibevoice ==> r is Err),
            self == Backend::VibeVoiceRealtime ==> (features.vibevoice ==> r == Ok::<ModelFamily, String>(
                ModelFamily::VibeVoiceRealtime,
            )) && (!features.vibevoice ==> r is Err),
            self == Backend::Voxtral ==> (features.voxtral ==> r == Ok::<ModelFamily, String>(ModelFamily::Voxtral))
                && (!features.voxtral ==> r is Err),
    {
        let (enabled, family, message) = match self {
            Backend::Kokoro => (features.kokoro, ModelFamily::Kokoro, "backend 'kokoro' requires --features kokoro"),
            Backend::OmniVoice => (
                features.omnivoice,
                ModelFamily::OmniVoice,
                "backend 'omnivoice' requires --features omnivoice",
            ),
            Backend::Qwen3Tts => (features.qwen3_tts, ModelFamily::Qwen3Tts, "backend 'qwen3' requires --features qwen3-tts"),
            Backend::VibeVoice => (
                features.vibevoice,
                ModelFamily::VibeVoice,
                "backend 'vibevoice' requires --features vibevoice",
            ),
            Backend::VibeVoiceRealtime => (
                features.vibevoice,
                ModelFamily::VibeVoiceRealtime,
                "backend 'vibevoice-realtime' requires --features vibevoice",
            ),
            Backend::Voxtral => (features.voxtral, ModelFamily::Voxtral, "backend 'voxtral' requires --features voxtral"),
        };
        if enabled {
            Ok(family)
        } else {
            Err(String::from_str(message))
        }
    }

    /// The model family to load in the default build (Qwen3-TTS only).
    pub fn model_type(self) -> (r: Result<ModelFamily, String>)
        ensures
            backend_enabled(self, default_features()) ==> r == Ok::<ModelFamily, String>(model_family(self)),
            !backend_enabled(self, default_features()) ==> (r matches Err(e) && e@ == missing_feature_message(self)),
            r is Ok <==> self == Backend::Qwen3Tts,
    {
        self.model_type_for(BuildFeatures::default_build())
    }

    /// Normalize a language tag for this backend (ISO codes → model language names).
    pub fn normalize_language(self, lang: &str) -> (r: String)
        ensures
            r@ == normalized_language(self, lang@),
    {
        let raw = trimmed(&chars_of(lang));
        let mut prefix: Vec<char> = Vec::new();
        let mut i: usize = 0;
        assert(raw@.skip(0) =~= raw@);
        assert(prefix@ + tag_prefix(raw@) =~= tag_prefix(raw@));
        while i < raw.len() && raw[i] != '-' && raw[i] != '_'
            invariant
                i <= raw@.len(),
                tag_prefix(raw@) == prefix@ + tag_prefix(raw@.skip(i as int)),
            decreases raw@.len() - i,
        {
            proof {
                let t = raw@.skip(i as int);
                assert(t[0] == raw@[i as int]);
                assert(t.drop_first() =~= raw@.skip(i + 1));
                assert(prefix@ + tag_prefix(t) =~= prefix@.push(raw@[i as int]) + tag_prefix(raw@.skip(i + 1)));
            }
            prefix.push(raw[i]);
            i += 1;
        }
        proof {
            let t = raw@.skip(i as int);
            if i < raw@.len() {
                assert(t[0] == raw@[i as int]);
            }
            assert(prefix@ + tag_prefix(t) =~= prefix@);
        }
        let short = lower_chars(&prefix);
        if self == Backend::Qwen3Tts {
            match qwen3_language_exec(&short) {
                Some(name) => String::from_str(name),
                None => string_of(&raw),
            }
        } else {
            string_of(&short)
        }
    }
}

impl BuildFeatures {
    /// The features of the default build: Qwen3-TTS only.
    pub fn default_build() -> (r: BuildFeatures)
        ensures
            r == default_features(),
    {
        BuildFeatures { kokoro: false, omnivoice: false, qwen3_tts: true, vibevoice: false, voxtral: false }
    }
}

fn qwen3_language_exec(short: &Vec<char>) -> (r: Option<&'static str>)
    ensures
        match r {
            Some(n) => qwen3_language(short@) == Some(n@),
            None => qwen3_language(short@) is None,
        },
{
    if chars_eq_str(short, "en") || chars_eq_str(short, "eng") || chars_eq_str(short, "english") {
        Some("English")
    } else if chars_eq_str(short, "zh") || chars_eq_str(short, "cmn") || chars_eq_str(short, "chinese")
        || chars_eq_str(short, "zho") {
        Some("Chinese")
    } else if chars_eq_str(short, "ja") || chars_eq_str(short, "jpn") || chars_eq_str(short, "japanese") {
        Some("Japanese")
    } else if chars_eq_str(short, "ko") || chars_eq_str(short, "kor") || chars_eq_str(short, "korean") {
        Some("Korean")
    } else if chars_eq_str(short, "de") || chars_eq_str(short, "deu") || chars_eq_str(short, "german") {
        Some("German")
    } else if chars_eq_str(short, "fr") || chars_eq_str(short, "fra") || chars_eq_str(short, "fre")
        || chars_eq_str(short, "french") {
        Some("French")
    } else if chars_eq_str(short, "ru") || chars_eq_str(short, "rus") || chars_eq_str(short, "russian") {
        Some("Russian")
    } else if chars_eq_str(short, "pt") || chars_eq_str(short, "por") || chars_eq_str(short, "portuguese") {
        Some("Portuguese")
    } else if chars_eq_str(short, "es") || chars_eq_str(short, "spa") || chars_eq_str(short, "spanish") {
        Some("Spanish")
    } else if chars_eq_str(short, "it") || chars_eq_str(short, "ita") || chars_eq_str(short, "italian") {
        Some("Italian")
    } else if chars_eq_str(short, "auto") {
        Some("auto")
    } else {
        None
    }
}

/// Parses a backend name or alias, ignoring ASCII case.
pub fn parse_backend(s: &str) -> (r: Result<Backend, String>)
    ensures
        match backend_from_name(lowered(s@)) {
            Some(b) => r == Ok::<Backend, String>(b),
            None => r matches Err(e) && e@ == unknown_backend_message(lowered(s@)),
        },
{
    let low = lower_chars(&chars_of(s));
    if chars_eq_str(&low, "kokoro") {
        Ok(Backend::Kokoro)
    } else if chars_eq_str(&low, "omnivoice") || chars_eq_str(&low, "omni") {
        Ok(Backend::OmniVoice)
    } else if chars_eq_str(&low, "qwen3") || chars_eq_str(&low, "qwen3-tts") || chars_eq_str(&low, "qwen") {
        Ok(Backend::Qwen3Tts)
    } else if chars_eq_str(&low, "vibevoice") || chars_eq_str(&low, "vibe") {
        Ok(Backend::VibeVoice)
    } else if chars_eq_str(&low, "vibevoice-realtime") || chars_eq_str(&low, "vibe-realtime")
        || chars_eq_str(&low, "realtime") {
        Ok(Backend::VibeVoiceRealtime)
    } else if chars_eq_str(&low, "voxtral") {
        Ok(Backend::Voxtral)
    } else {
        let name = string_of(&low);
        let head = concat_str("unknown backend '", name.as_str());
        Err(concat_str(
            head.as_str(),
            "'. Choose: kokoro, omnivoice, qwen3, vibevoice, vibevoice-realtime, voxtral",
        ))
    }
}

/// Parses a device name, ignoring ASCII case.
pub fn parse_device(s: &str) -> (r: Result<DeviceKind, String>)
    ensures
        match device_from_name(lowered(s@)) {
            Some(d) => r == Ok::<DeviceKind, String>(d),
            None => r matches Err(e) && e@ == unknown_device_message(lowered(s@)),
        },
{
    let low = lower_chars(&chars_of(s));
    if chars_eq_str(&low, "auto") {
        Ok(DeviceKind::Auto)
    } else if chars_eq_str(&low, "cpu") {
        Ok(DeviceKind::Cpu)
    } else if chars_eq_str(&low, "metal") {
        Ok(DeviceKind::Metal)
    } else if chars_eq_str(&low, "cuda") {
        Ok(DeviceKind::Cuda)
    } else {
        let name = string_of(&low);
        let head = concat_str("unknown device '", name.as_str());
        Err(concat_str(head.as_str(), "'. Choose: auto, cpu, metal, cuda"))
    }
}

impl std::str::FromStr for Backend {
    type Err = String;

    fn from_str(s: &str) -> (r: Result<Backend, String>)
        ensures
            match backend_from_name(lowered(s@)) {
                Some(b) => r == Ok::<Backend, String>(b),
                None => r matches Err(e) && e@ == unknown_backend_message(lowered(s@)),
            },
    {
        parse_backend(s)
    }
}

impl std::str::FromStr for DeviceKind {
    type Err = String;

    fn from_str(s: &str) -> (r: Result<DeviceKind, String>)
        ensures
            match device_from_name(lowered(s@)) {
                Some(d) => r == Ok::<DeviceKind, String>(d),
                None => r matches Err(e) && e@ == unknown_device_message(lowered(s@)),
            },
    {
        parse_device(s)
    }
}

/// Whether some voice equals `name` up to ASCII case (`str::eq_ignore_ascii_case`).
fn has_voice_exec(voices: &Vec<String>, name: &str) -> (r: bool)
    ensures
        r == has_voice(strs(voices@), name@),
{
    let target = lower_chars(&chars_of(name));
    let mut i: usize = 0;
    while i < voices.len()
        invariant
            i <= voices@.len(),
            target@ == lowered(name@),
            forall|k: int| 0 <= k < i ==> lowered(#[trigger] strs(voices@)[k]) != lowered(name@),
        decreases voices@.len() - i,
    {
        let v = lower_chars(&chars_of(voices[i].as_str()));
        if crate::chars::chars_eq(&v, &target) {
            assert(strs(voices@)[i as int] == voices@[i as int]@);
            return true;
        }
        assert(strs(voices@)[i as int] == voices@[i as int]@);
        i += 1;
    }
    false
}

/// Pick a CustomVoice speaker when the user did not pass a voice.
pub fn default_qwen3_voice(voices: &Vec<String>, language: Option<&str>) -> (r: Option<String>)
    ensures
        r matches Some(v) && v@ == qwen3_default_voice(strs(voices@), match language {
            Some(l) => Some(l@),
            None => None,
        }),
{
    let ghost lang = match language {
        Some(l) => Some(l@),
        None => None,
    };
    if voices.len() == 0 {
        return Some(String::from_str("Vivian"));
    }
    let preferred: Vec<&str> = match language {
        None => vec!["Vivian", "Ryan", "Aiden", "Serena"],
        Some(l) => {
            let lv = chars_of(l);
            if chars_eq_str(&lv, "English") {
                vec!["Vivian", "Ryan", "Aiden", "Serena"]
            } else if chars_eq_str(&lv, "Chinese") {
                vec!["Vivian", "Serena", "Uncle_Fu", "Dylan"]
            } else if chars_eq_str(&lv, "Japanese") {
                vec!["Ono_Anna", "Sohee"]
            } else if chars_eq_str(&lv, "Korean") {
                vec!["Sohee", "Ono_Anna"]
            } else {
                vec!["Vivian", "Ryan", "Aiden"]
            }
        },
    };
    let ghost pref = preferred@.map_values(|s: &str| s@);
    assert(pref =~= preferred_voices(lang));
    let mut i: usize = 0;
    assert(pref.skip(0) =~= pref);
    while i < preferred.len()
        invariant
            i <= preferred@.len(),
            pref == preferred@.map_values(|s: &str| s@),
            pref == preferred_voices(lang),
            voices@.len() > 0,
            lang == (match language {
                Some(l) => Some(l@),
                None => None::<Seq<char>>,
            }),
            first_available(pref, strs(voices@)) == first_available(pref.skip(i as int), strs(voices@)),
        decreases preferred@.len() - i,
    {
        let name = preferred[i];
        proof {
            let t = pref.skip(i as int);
            assert(t[0] == name@);
            assert(t.drop_first() =~= pref.skip(i + 1));
        }
        if has_voice_exec(voices, name) {
            proof {
                let t = pref.skip(i as int);
                assert(first_available(t, strs(voices@)) == Some(name@));
            }
            return Some(String::from_str(name));
        }
        i += 1;
    }
    proof {
        assert(pref.skip(i as int).len() == 0);
    }
    Some(voices[0].clone())
}

/// Fills in the defaults an engine is loaded with: the language normalised for
/// the backend, the user's voice or, for Qwen3, a speaker the model offers, and
/// the user's style instruction.
pub fn resolve_engine_settings(opts: &TtsOptions, model_voices: &Vec<String>) -> (r: EngineSettings)
    ensures
        opt_view(r.language) == (match opts.language {
            Some(l) => Some(normalized_language(opts.backend, l@)),
            None => None,
        }),
        opt_view(r.voice) == (match opts.voice {
            Some(v) => Some(v@),
            None => if opts.backend == Backend::Qwen3Tts {
                Some(qwen3_default_voice(strs(model_voices@), opt_view(r.language)))
            } else {
                None
            },
        }),
        opt_view(r.instruct) == opt_view(opts.instruct),
{
    let language = match &opts.language {
        Some(l) => Some(opts.backend.normalize_language(l.as_str())),
        None => None,
    };
    let voice = match &opts.voice {
        Some(v) => Some(v.clone()),
        None => if opts.backend == Backend::Qwen3Tts {
            match &language {
                Some(l) => default_qwen3_voice(model_voices, Some(l.as_str())),
                None => default_qwen3_voice(model_voices, None),
            }
        } else {
            None
        },
    };
    let instruct = match &opts.instruct {
        Some(i) => Some(i.clone()),
        None => None,
    };
    EngineSettings { language, voice, instruct }
}

/// `s` cut to `max` characters followed by an ellipsis when it is longer
/// (used to quote text in synthesis errors).
pub fn truncate(s: &str, max: usize) -> (r: String)
    ensures
        r@ == truncated_after(s@, max as nat),
{
    let v = chars_of(s);
    if v.len() <= max {
        String::from_str(s)
    } else {
        let mut head = crate::chars::string_of_range(&v, 0, max);
        push_char(&mut head, '…');
        assert(v@.subrange(0, max as int) =~= s@.take(max as int));
        head
    }
}

// ---------------------------------------------------------------------------
// Laws
// ---------------------------------------------------------------------------

/// Parsing the name a backend prints gives that backend back.
pub proof fn lemma_backend_name_round_trip(b: Backend)
    ensures
        backend_from_name(lowered(backend_name(b))) == Some(b),
{
    reveal_strlit("kokoro");
    reveal_strlit("omnivoice");
    reveal_strlit("omni");
    reveal_strlit("qwen3");
    reveal_strlit("qwen3-tts");
    reveal_strlit("qwen");
    reveal_strlit("vibevoice");
    reveal_strlit("vibe");
    reveal_strlit("vibevoice-realtime");
    reveal_strlit("vibe-realtime");
    reveal_strlit("realtime");
    reveal_strlit("voxtral");
    let n = backend_name(b);
    assert(lowered(n) =~= n);
    match b {
        Backend::Kokoro => {},
        Backend::OmniVoice => {
            assert(n[0] != "kokoro"@[0]);
        },
        Backend::Qwen3Tts => {
            assert(n[0] != "kokoro"@[0]);
            assert(n[0] != "omni"@[0]);
        },
        Backend::VibeVoice => {
            assert(n[0] != "kokoro"@[0]);
            assert(n[0] != "omnivoice"@[0]);
            assert(n[0] != "qwen3-tts"@[0]);
        },
        Backend::VibeVoiceRealtime => {
            assert(n[0] != "kokoro"@[0]);
            assert(n[0] != "omni"@[0]);
            assert(n[0] != "qwen3"@[0]);
            assert(n.len() != "vibevoice"@.len());
            assert(n.len() != "vibe"@.len());
        },
        Backend::Voxtral => {
            assert(n[0] != "kokoro"@[0]);
            assert(n[0] != "omnivoice"@[0]);
            assert(n[0] != "qwen3"@[0]);
            assert(n[1] != "vibevoice"@[1]);
            assert(n[1] != "vibe-realtime"@[1]);
            assert(n[0] != "realtime"@[0]);
        },
    }
}

/// The voice chosen for Qwen3 is one the model offers (up to ASCII case), unless
/// the model lists no voices at all.
pub proof fn lemma_default_voice_offered(voices: Seq<Seq<char>>, language: Option<Seq<char>>)
    requires
        voices.len() > 0,
    ensures
        has_voice(voices, qwen3_default_voice(voices, language)),
{
    lemma_first_available_offered(preferred_voices(language), voices);
    match first_available(preferred_voices(language), voices) {
        Some(n) => {},
        None => {
            assert(lowered(voices[0]) == lowered(voices[0]));
        },
    }
}

/// The first preferred name the model offers (up to ASCII case) is chosen,
/// spelled as in the preference list; when it offers none of them, its first
/// voice is chosen.
pub proof fn lemma_default_voice_rule(voices: Seq<Seq<char>>, language: Option<Seq<char>>)
    requires
        voices.len() > 0,
    ensures
        (exists|j: int| 0 <= j < preferred_voices(language).len() && has_voice(voices, #[trigger] preferred_voices(language)[j]))
            ==> exists|j: int|
            0 <= j < preferred_voices(language).len() && qwen3_default_voice(voices, language) == #[trigger] preferred_voices(language)[j]
                && has_voice(voices, preferred_voices(language)[j]) && forall|k: int|
                0 <= k < j ==> !has_voice(voices, #[trigger] preferred_voices(language)[k]),
        (forall|j: int| 0 <= j < preferred_voices(language).len() ==> !has_voice(voices, #[trigger] preferred_voices(language)[j]))
            ==> qwen3_default_voice(voices, language) == voices[0],
{
    lemma_first_available_first(preferred_voices(language), voices);
}

proof fn lemma_first_available_first(pref: Seq<Seq<char>>, voices: Seq<Seq<char>>)
    ensures
        match first_available(pref, voices) {
            Some(n) => exists|j: int|
                0 <= j < pref.len() && n == #[trigger] pref[j] && has_voice(voices, pref[j]) && forall|k: int|
                    0 <= k < j ==> !has_voice(voices, #[trigger] pref[k]),
            None => forall|j: int| 0 <= j < pref.len() ==> !has_voice(voices, #[trigger] pref[j]),
        },
    decreases pref.len(),
{
    if pref.len() > 0 {
        if has_voice(voices, pref[0]) {
            assert(first_available(pref, voices) == Some(pref[0]));
        } else {
            let rest = pref.drop_first();
            lemma_first_available_first(rest, voices);
            match first_available(rest, voices) {
                Some(n) => {
                    let j = choose|j: int|
                        0 <= j < rest.len() && n == #[trigger] rest[j] && has_voice(voices, rest[j]) && forall|k: int|
                            0 <= k < j ==> !has_voice(voices, #[trigger] rest[k]);
                    assert(pref[j + 1] == rest[j]);
                    assert forall|k: int| 0 <= k < j + 1 implies !has_voice(voices, #[trigger] pref[k]) by {
                        if k > 0 {
                            assert(pref[k] == rest[k - 1]);
                        }
                    }
                },
                None => {
                    assert forall|j: int| 0 <= j < pref.len() implies !has_voice(voices, #[trigger] pref[j]) by {
                        if j > 0 {
                            assert(pref[j] == rest[j - 1]);
                        }
                    }
                },
            }
        }
    }
}

proof fn lemma_first_available_offered(pref: Seq<Seq<char>>, voices: Seq<Seq<char>>)
    ensures
        first_available(pref, voices) matches Some(n) ==> has_voice(voices, n),
    decreases pref.len(),
{
    if pref.len() > 0 && !has_voice(voices, pref[0]) {
        lemma_first_available_offered(pref.drop_first(), voices);
    }
}

/// Trimming twice is trimming once.
proof fn lemma_trim_idempotent(s: Seq<char>)
    ensures
        trim(trim(s)) == trim(s),
{
    crate::text::lemma_trim_tidy(s);
    if trim(s).len() > 0 {
        lemma_trim_of_tidy(trim(s));
    } else {
        assert(trim(s) =~= Seq::<char>::empty());
        assert(trim_start(Seq::<char>::empty()) == Seq::<char>::empty());
        assert(trim_end(Seq::<char>::empty()) == Seq::<char>::empty());
    }
}

/// `s` holds no tag separator.
pub open spec fn no_tag_sep(s: Seq<char>) -> bool {
    forall|k: int| 0 <= k < s.len() ==> #[trigger] s[k] != '-' && s[k] != '_'
}

proof fn lemma_tag_prefix_shape(s: Seq<char>)
    ensures
        no_tag_sep(tag_prefix(s)),
        no_tag_sep(s) ==> tag_prefix(s) == s,
    decreases s.len(),
{
    if s.len() == 0 || s[0] == '-' || s[0] == '_' {
        if s.len() == 0 {
            assert(s =~= Seq::<char>::empty());
        }
    } else {
        let t = s.drop_first();
        lemma_tag_prefix_shape(t);
        let r = tag_prefix(s);
        assert(r == seq![s[0]] + tag_prefix(t));
        assert forall|k: int| 0 <= k < r.len() implies #[trigger] r[k] != '-' && r[k] != '_' by {
            if k > 0 {
                assert(r[k] == tag_prefix(t)[k - 1]);
            }
        }
        if no_tag_sep(s) {
            assert forall|k: int| 0 <= k < t.len() implies #[trigger] t[k] != '-' && t[k] != '_' by {
                assert(t[k] == s[k + 1]);
            }
            assert(seq![s[0]] + t =~= s);
        }
    }
}

proof fn lemma_ascii_lower_char(c: char)
    ensures
        ascii_lower(ascii_lower(c)) == ascii_lower(c),
        ascii_lower(c) == '-' ==> c == '-',
        ascii_lower(c) == '_' ==> c == '_',
        is_ws(ascii_lower(c)) == is_ws(c),
{
    if 'A' <= c && c <= 'Z' {
        let x = (c as u32) + 32;
        assert(97 <= x <= 122);
        assert((x as char) as u32 == x);
    }
}

proof fn lemma_lowered_shape(s: Seq<char>)
    ensures
        lowered(lowered(s)) == lowered(s),
        no_tag_sep(s) ==> no_tag_sep(lowered(s)),
        s.len() > 0 ==> lowered(s)[0] == ascii_lower(s[0]) && lowered(s).last() == ascii_lower(s.last()),
{
    assert forall|k: int| 0 <= k < s.len() implies #[trigger] lowered(lowered(s))[k] == lowered(s)[k] by {
        lemma_ascii_lower_char(s[k]);
    }
    assert(lowered(lowered(s)) =~= lowered(s));
    if no_tag_sep(s) {
        assert forall|k: int| 0 <= k < lowered(s).len() implies #[trigger] lowered(s)[k] != '-' && lowered(s)[k] != '_' by {
            lemma_ascii_lower_char(s[k]);
        }
    }
}

/// The short form of a short form is itself, when it has no whitespace at its ends.
proof fn lemma_language_short_stable(y: Seq<char>)
    requires
        trim(y) == y,
        no_tag_sep(y),
        lowered(y) == y,
    ensures
        language_short(y) == y,
{
    lemma_tag_prefix_shape(y);
}

proof fn lemma_canonical_language(x: Seq<char>)
    requires
        qwen3_language(x) is Some,
    ensures
        qwen3_language(language_short(qwen3_language(x).unwrap())) == qwen3_language(x),
{
    let n = qwen3_language(x).unwrap();
    reveal_strlit("English");
    reveal_strlit("Chinese");
    reveal_strlit("Japanese");
    reveal_strlit("Korean");
    reveal_strlit("German");
    reveal_strlit("French");
    reveal_strlit("Russian");
    reveal_strlit("Portuguese");
    reveal_strlit("Spanish");
    reveal_strlit("Italian");
    reveal_strlit("auto");
    reveal_strlit("en");
    reveal_strlit("eng");
    reveal_strlit("english");
    reveal_strlit("zh");
    reveal_strlit("cmn");
    reveal_strlit("chinese");
    reveal_strlit("zho");
    reveal_strlit("ja");
    reveal_strlit("jpn");
    reveal_strlit("japanese");
    reveal_strlit("ko");
    reveal_strlit("kor");
    reveal_strlit("korean");
    reveal_strlit("de");
    reveal_strlit("deu");
    reveal_strlit("german");
    reveal_strlit("fr");
    reveal_strlit("fra");
    reveal_strlit("fre");
    reveal_strlit("french");
    reveal_strlit("ru");
    reveal_strlit("rus");
    reveal_strlit("russian");
    reveal_strlit("pt");
    reveal_strlit("por");
    reveal_strlit("portuguese");
    reveal_strlit("es");
    reveal_strlit("spa");
    reveal_strlit("spanish");
    reveal_strlit("it");
    reveal_strlit("ita");
    reveal_strlit("italian");
    assert(n.len() > 0);
    assert(!is_ws(n[0]) && !is_ws(n.last()));
    lemma_trim_of_tidy(n);
    assert(no_tag_sep(n));
    lemma_tag_prefix_shape(n);
    lemma_lowered_shape(n);
    let low = lowered(n);
    assert(language_short(n) == low);
    if n == "English"@ {
        assert(low =~= "english"@);
    } else if n == "Chinese"@ {
        assert(low =~= "chinese"@);
        assert(low[0] != "english"@[0]);
    } else if n == "Japanese"@ {
        assert(low =~= "japanese"@);
    } else if n == "Korean"@ {
        assert(low =~= "korean"@);
        assert(low[0] != "french"@[0]);
    } else if n == "German"@ {
        assert(low =~= "german"@);
        assert(low[0] != "korean"@[0]);
    } else if n == "French"@ {
        assert(low =~= "french"@);
        assert(low[0] != "korean"@[0]);
        assert(low[0] != "german"@[0]);
    } else if n == "Russian"@ {
        assert(low =~= "russian"@);
        assert(low[0] != "english"@[0]);
        assert(low[0] != "chinese"@[0]);
    } else if n == "Portuguese"@ {
        assert(low =~= "portuguese"@);
    } else if n == "Spanish"@ {
        assert(low =~= "spanish"@);
        assert(low[0] != "english"@[0]);
        assert(low[0] != "chinese"@[0]);
        assert(low[0] != "russian"@[0]);
    } else if n == "Italian"@ {
        assert(low =~= "italian"@);
        assert(low[0] != "english"@[0]);
        assert(low[0] != "chinese"@[0]);
        assert(low[0] != "russian"@[0]);
        assert(low[0] != "spanish"@[0]);
    } else {
        assert(n == "auto"@);
        assert(low =~= "auto"@);
        assert(low[0] != "zho"@[0]);
        assert(low[0] != "jpn"@[0]);
    }
}

/// Normalising a language tag that the backend already accepts changes
/// nothing: for Qwen3 always, for the other backends whenever the short tag has
/// no whitespace at its ends (a tag such as `"en -US"` keeps a trailing space
/// in its short form, which a second pass trims).
pub proof fn lemma_normalize_language_idempotent(b: Backend, lang: Seq<char>)
    requires
        b == Backend::Qwen3Tts || trim(language_short(lang)) == language_short(lang),
    ensures
        normalized_language(b, normalized_language(b, lang)) == normalized_language(b, lang),
{
    let short = language_short(lang);
    lemma_tag_prefix_shape(trim(lang));
    lemma_lowered_shape(tag_prefix(trim(lang)));
    if b == Backend::Qwen3Tts {
        match qwen3_language(short) {
            Some(n) => {
                lemma_canonical_language(short);
            },
            None => {
                lemma_trim_idempotent(lang);
                assert(language_short(trim(lang)) == short);
            },
        }
    } else {
        lemma_language_short_stable(short);
    }
}


/// For Qwen3, a tag whose primary subtag (trimmed, cut at the first `-` or `_`,
/// lower-cased) is the ISO 639-1 or 639-2 code or the English name of a
/// supported language becomes that language's name, `auto` stays `auto`, and
/// any other tag is passed on trimmed.
pub proof fn lemma_qwen3_language_names(lang: Seq<char>)
    ensures
        (language_short(lang) == "en"@
            || language_short(lang) == "eng"@
            || language_short(lang) == "english"@
        ) ==> normalized_language(Backend::Qwen3Tts, lang) == "English"@,
        (language_short(lang) == "zh"@
            || language_short(lang) == "cmn"@
            || language_short(lang) == "chinese"@
            || language_short(lang) == "zho"@
        ) ==> normalized_language(Backend::Qwen3Tts, lang) == "Chinese"@,
        (language_short(lang) == "ja"@
            || language_short(lang) == "jpn"@
            || language_short(lang) == "japanese"@
        ) ==> normalized_language(Backend::Qwen3Tts, lang) == "Japanese"@,
        (language_short(lang) == "ko"@
            || language_short(lang) == "kor"@
            || language_short(lang) == "korean"@
        ) ==> normalized_language(Backend::Qwen3Tts, lang) == "Korean"@,
        (language_short(lang) == "de"@
            || language_short(lang) == "deu"@
            || language_short(lang) == "german"@
        ) ==> normalized_language(Backend::Qwen3Tts, lang) == "German"@,
        (language_short(lang) == "fr"@
            || language_short(lang) == "fra"@
            || language_short(lang) == "fre"@
            || language_short(lang) == "french"@
        ) ==> normalized_language(Backend::Qwen3Tts, lang) == "French"@,
        (language_short(lang) == "ru"@
            || language_short(lang) == "rus"@
            || language_short(lang) == "russian"@
        ) ==> normalized_language(Backend::Qwen3Tts, lang) == "Russian"@,
        (language_short(lang) == "pt"@
            || language_short(lang) == "por"@
            || language_short(lang) == "portuguese"@
        ) ==> normalized_language(Backend::Qwen3Tts, lang) == "Portuguese"@,
        (language_short(lang) == "es"@
            || language_short(lang) == "spa"@
            || language_short(lang) == "spanish"@
        ) ==> normalized_language(Backend::Qwen3Tts, lang) == "Spanish"@,
        (language_short(lang) == "it"@
            || language_short(lang) == "ita"@
            || language_short(lang) == "italian"@
        ) ==> normalized_language(Backend::Qwen3Tts, lang) == "Italian"@,
        (language_short(lang) == "auto"@
        ) ==> normalized_language(Backend::Qwen3Tts, lang) == "auto"@,
        !(language_short(lang) == "en"@
            || language_short(lang) == "eng"@
            || language_short(lang) == "english"@
            || language_short(lang) == "zh"@
            || language_short(lang) == "cmn"@
            || language_short(lang) == "chinese"@
            || language_short(lang) == "zho"@
            || language_short(lang) == "ja"@
            || language_short(lang) == "jpn"@
            || language_short(lang) == "japanese"@
            || language_short(lang) == "ko"@
            || language_short(lang) == "kor"@
            || language_short(lang) == "korean"@
            || language_short(lang) == "de"@
            || language_short(lang) == "deu"@
            || language_short(lang) == "german"@
            || language_short(lang) == "fr"@
            || language_short(lang) == "fra"@
            || language_short(lang) == "fre"@
            || language_short(lang) == "french"@
            || language_short(lang) == "ru"@
            || language_short(lang) == "rus"@
            || language_short(lang) == "russian"@
            || language_short(lang) == "pt"@
            || language_short(lang) == "por"@
            || language_short(lang) == "portuguese"@
            || language_short(lang) == "es"@
            || language_short(lang) == "spa"@
            || language_short(lang) == "spanish"@
            || language_short(lang) == "it"@
            || language_short(lang) == "ita"@
            || language_short(lang) == "italian"@
            || language_short(lang) == "auto"@
        ) ==> normalized_language(Backend::Qwen3Tts, lang) == trim(lang),
{
    reveal_strlit("auto");
    reveal_strlit("chinese");
    reveal_strlit("cmn");
    reveal_strlit("de");
    reveal_strlit("deu");
    reveal_strlit("en");
    reveal_strlit("eng");
    reveal_strlit("english");
    reveal_strlit("es");
    reveal_strlit("fr");
    reveal_strlit("fra");
    reveal_strlit("fre");
    reveal_strlit("french");
    reveal_strlit("german");
    reveal_strlit("it");
    reveal_strlit("ita");
    reveal_strlit("italian");
    reveal_strlit("ja");
    reveal_strlit("japanese");
    reveal_strlit("jpn");
    reveal_strlit("ko");
    reveal_strlit("kor");
    reveal_strlit("korean");
    reveal_strlit("por");
    reveal_strlit("portuguese");
    reveal_strlit("pt");
    reveal_strlit("ru");
    reveal_strlit("rus");
    reveal_strlit("russian");
    reveal_strlit("spa");
    reveal_strlit("spanish");
    reveal_strlit("zh");
    reveal_strlit("zho");
    if language_short(lang) == "en"@ {
        assert("en"@.len() == 2);
    }
    if language_short(lang) == "eng"@ {
        assert("eng"@.len() == 3);
    }
    if language_short(lang) == "english"@ {
        assert("english"@.len() == 7);
    }
    if language_short(lang) == "zh"@ {
        assert("zh"@.len() == 2);
        assert("zh"@[0] != "en"@[0]);
    }
    if language_short(lang) == "cmn"@ {
        assert("cmn"@.len() == 3);
        assert("cmn"@[0] != "eng"@[0]);
    }
    if language_short(lang) == "chinese"@ {
        assert("chinese"@.len() == 7);
        assert("chinese"@[0] != "english"@[0]);
    }
    if language_short(lang) == "zho"@ {
        assert("zho"@.len() == 3);
        assert("zho"@[0] != "eng"@[0]);
    }
    if language_short(lang) == "ja"@ {
        assert("ja"@.len() == 2);
        assert("ja"@[0] != "en"@[0]);
        assert("ja"@[0] != "zh"@[0]);
    }
    if language_short(lang) == "jpn"@ {
        assert("jpn"@.len() == 3);
        assert("jpn"@[0] != "eng"@[0]);
        assert("jpn"@[0] != "cmn"@[0]);
        assert("jpn"@[0] != "zho"@[0]);
    }
    if language_short(lang) == "japanese"@ {
        assert("japanese"@.len() == 8);
    }
    if language_short(lang) == "ko"@ {
        assert("ko"@.len() == 2);
        assert("ko"@[0] != "en"@[0]);
        assert("ko"@[0] != "zh"@[0]);
        assert("ko"@[0] != "ja"@[0]);
    }
    if language_short(lang) == "kor"@ {
        assert("kor"@.len() == 3);
        assert("kor"@[0] != "eng"@[0]);
        assert("kor"@[0] != "cmn"@[0]);
        assert("kor"@[0] != "zho"@[0]);
        assert("kor"@[0] != "jpn"@[0]);
    }
    if language_short(lang) == "korean"@ {
        assert("korean"@.len() == 6);
    }
    if language_short(lang) == "de"@ {
        assert("de"@.len() == 2);
        assert("de"@[0] != "en"@[0]);
        assert("de"@[0] != "zh"@[0]);
        assert("de"@[0] != "ja"@[0]);
        assert("de"@[0] != "ko"@[0]);
    }
    if language_short(lang) == "deu"@ {
        assert("deu"@.len() == 3);
        assert("deu"@[0] != "eng"@[0]);
        assert("deu"@[0] != "cmn"@[0]);
        assert("deu"@[0] != "zho"@[0]);
        assert("deu"@[0] != "jpn"@[0]);
        assert("deu"@[0] != "kor"@[0]);
    }
    if language_short(lang) == "german"@ {
        assert("german"@.len() == 6);
        assert("german"@[0] != "korean"@[0]);
    }
    if language_short(lang) == "fr"@ {
        assert("fr"@.len() == 2);
        assert("fr"@[0] != "en"@[0]);
        assert("fr"@[0] != "zh"@[0]);
        assert("fr"@[0] != "ja"@[0]);
        assert("fr"@[0] != "ko"@[0]);
        assert("fr"@[0] != "de"@[0]);
    }
    if language_short(lang) == "fra"@ {
        assert("fra"@.len() == 3);
        assert("fra"@[0] != "eng"@[0]);
        assert("fra"@[0] != "cmn"@[0]);
        assert("fra"@[0] != "zho"@[0]);
        assert("fra"@[0] != "jpn"@[0]);
        assert("fra"@[0] != "kor"@[0]);
        assert("fra"@[0] != "deu"@[0]);
    }
    if language_short(lang) == "fre"@ {
        assert("fre"@.len() == 3);
        assert("fre"@[0] != "eng"@[0]);
        assert("fre"@[0] != "cmn"@[0]);
        assert("fre"@[0] != "zho"@[0]);
        assert("fre"@[0] != "jpn"@[0]);
        assert("fre"@[0] != "kor"@[0]);
        assert("fre"@[0] != "deu"@[0]);
    }
    if language_short(lang) == "french"@ {
        assert("french"@.len() == 6);
        assert("french"@[0] != "korean"@[0]);
        assert("french"@[0] != "german"@[0]);
    }
    if language_short(lang) == "ru"@ {
        assert("ru"@.len() == 2);
        assert("ru"@[0] != "en"@[0]);
        assert("ru"@[0] != "zh"@[0]);
        assert("ru"@[0] != "ja"@[0]);
        assert("ru"@[0] != "ko"@[0]);
        assert("ru"@[0] != "de"@[0]);
        assert("ru"@[0] != "fr"@[0]);
    }
    if language_short(lang) == "rus"@ {
        assert("rus"@.len() == 3);
        assert("rus"@[0] != "eng"@[0]);
        assert("rus"@[0] != "cmn"@[0]);
        assert("rus"@[0] != "zho"@[0]);
        assert("rus"@[0] != "jpn"@[0]);
        assert("rus"@[0] != "kor"@[0]);
        assert("rus"@[0] != "deu"@[0]);
        assert("rus"@[0] != "fra"@[0]);
        assert("rus"@[0] != "fre"@[0]);
    }
    if language_short(lang) == "russian"@ {
        assert("russian"@.len() == 7);
        assert("russian"@[0] != "english"@[0]);
        assert("russian"@[0] != "chinese"@[0]);
    }
    if language_short(lang) == "pt"@ {
        assert("pt"@.len() == 2);
        assert("pt"@[0] != "en"@[0]);
        assert("pt"@[0] != "zh"@[0]);
        assert("pt"@[0] != "ja"@[0]);
        assert("pt"@[0] != "ko"@[0]);
        assert("pt"@[0] != "de"@[0]);
        assert("pt"@[0] != "fr"@[0]);
        assert("pt"@[0] != "ru"@[0]);
    }
    if language_short(lang) == "por"@ {
        assert("por"@.len() == 3);
        assert("por"@[0] != "eng"@[0]);
        assert("por"@[0] != "cmn"@[0]);
        assert("por"@[0] != "zho"@[0]);
        assert("por"@[0] != "jpn"@[0]);
        assert("por"@[0] != "kor"@[0]);
        assert("por"@[0] != "deu"@[0]);
        assert("por"@[0] != "fra"@[0]);
        assert("por"@[0] != "fre"@[0]);
        assert("por"@[0] != "rus"@[0]);
    }
    if language_short(lang) == "portuguese"@ {
        assert("portuguese"@.len() == 10);
    }
    if language_short(lang) == "es"@ {
        assert("es"@.len() == 2);
        assert("es"@[1] != "en"@[1]);
        assert("es"@[0] != "zh"@[0]);
        assert("es"@[0] != "ja"@[0]);
        assert("es"@[0] != "ko"@[0]);
        assert("es"@[0] != "de"@[0]);
        assert("es"@[0] != "fr"@[0]);
        assert("es"@[0] != "ru"@[0]);
        assert("es"@[0] != "pt"@[0]);
    }
    if language_short(lang) == "spa"@ {
        assert("spa"@.len() == 3);
        assert("spa"@[0] != "eng"@[0]);
        assert("spa"@[0] != "cmn"@[0]);
        assert("spa"@[0] != "zho"@[0]);
        assert("spa"@[0] != "jpn"@[0]);
        assert("spa"@[0] != "kor"@[0]);
        assert("spa"@[0] != "deu"@[0]);
        assert("spa"@[0] != "fra"@[0]);
        assert("spa"@[0] != "fre"@[0]);
        assert("spa"@[0] != "rus"@[0]);
        assert("spa"@[0] != "por"@[0]);
    }
    if language_short(lang) == "spanish"@ {
        assert("spanish"@.len() == 7);
        assert("spanish"@[0] != "english"@[0]);
        assert("spanish"@[0] != "chinese"@[0]);
        assert("spanish"@[0] != "russian"@[0]);
    }
    if language_short(lang) == "it"@ {
        assert("it"@.len() == 2);
        assert("it"@[0] != "en"@[0]);
        assert("it"@[0] != "zh"@[0]);
        assert("it"@[0] != "ja"@[0]);
        assert("it"@[0] != "ko"@[0]);
        assert("it"@[0] != "de"@[0]);
        assert("it"@[0] != "fr"@[0]);
        assert("it"@[0] != "ru"@[0]);
        assert("it"@[0] != "pt"@[0]);
        assert("it"@[0] != "es"@[0]);
    }
    if language_short(lang) == "ita"@ {
        assert("ita"@.len() == 3);
        assert("ita"@[0] != "eng"@[0]);
        assert("ita"@[0] != "cmn"@[0]);
        assert("ita"@[0] != "zho"@[0]);
        assert("ita"@[0] != "jpn"@[0]);
        assert("ita"@[0] != "kor"@[0]);
        assert("ita"@[0] != "deu"@[0]);
        assert("ita"@[0] != "fra"@[0]);
        assert("ita"@[0] != "fre"@[0]);
        assert("ita"@[0] != "rus"@[0]);
        assert("ita"@[0] != "por"@[0]);
        assert("ita"@[0] != "spa"@[0]);
    }
    if language_short(lang) == "italian"@ {
        assert("italian"@.len() == 7);
        assert("italian"@[0] != "english"@[0]);
        assert("italian"@[0] != "chinese"@[0]);
        assert("italian"@[0] != "russian"@[0]);
        assert("italian"@[0] != "spanish"@[0]);
    }
    if language_short(lang) == "auto"@ {
        assert("auto"@.len() == 4);
    }
}


/// A backend is available exactly when the build has its own feature: Kokoro
/// with `kokoro`, OmniVoice with `omnivoice`, Qwen3 with `qwen3-tts`, both
/// VibeVoice backends with `vibevoice`, Voxtral with `voxtral`; and each loads
/// its own model family.
pub proof fn lemma_backend_needs_own_feature(b: Backend, f: BuildFeatures)
    ensures
        b == Backend::Kokoro ==> (backend_enabled(b, f) <==> f.kokoro) && model_family(b) == ModelFamily::Kokoro,
        b == Backend::OmniVoice ==> (backend_enabled(b, f) <==> f.omnivoice) && model_family(b)
            == ModelFamily::OmniVoice,
        b == Backend::Qwen3Tts ==> (backend_enabled(b, f) <==> f.qwen3_tts) && model_family(b)
            == ModelFamily::Qwen3Tts,
        b == Backend::VibeVoice ==> (backend_enabled(b, f) <==> f.vibevoice) && model_family(b)
            == ModelFamily::VibeVoice,
        b == Backend::VibeVoiceRealtime ==> (backend_enabled(b, f) <==> f.vibevoice) && model_family(b)
            == ModelFamily::VibeVoiceRealtime,
        b == Backend::Voxtral ==> (backend_enabled(b, f) <==> f.voxtral) && model_family(b) == ModelFamily::Voxtral,
{
}


/// Voices offered first, in the fixed order each language prefers.
proof fn lemma_first_available_literal(pref: Seq<Seq<char>>, voices: Seq<Seq<char>>, k: nat)
    requires
        k <= pref.len(),
    ensures
        first_available(pref.skip(k as int), voices) == if k == pref.len() {
            None
        } else if has_voice(voices, pref[k as int]) {
            Some(pref[k as int])
        } else {
            first_available(pref.skip(k + 1 as int), voices)
        },
{
    if k < pref.len() {
        assert(pref.skip(k as int)[0] == pref[k as int]);
        assert(pref.skip(k as int).drop_first() =~= pref.skip(k + 1 as int));
    } else {
        assert(pref.skip(k as int).len() == 0);
    }
}

/// The default Qwen3 speaker when the model lists voices: the first of the
/// language's preferred speakers that the model offers (up to ASCII case),
/// spelled as in the list, else the model's first voice (Vivian when the model
/// lists none). Korean prefers Sohee,
/// then Ono_Anna; Japanese Ono_Anna, then Sohee; Chinese Vivian, Serena,
/// Uncle_Fu, Dylan; English (or no language) Vivian, Ryan, Aiden, Serena; any
/// other language Vivian, Ryan, Aiden.
pub proof fn lemma_default_voice_lists(voices: Seq<Seq<char>>, language: Option<Seq<char>>)
    ensures
        voices.len() == 0 ==> qwen3_default_voice(voices, language) == "Vivian"@,
        voices.len() > 0 && language == Some("Korean"@) ==> qwen3_default_voice(voices, language) == if has_voice(voices, "Sohee"@) {
                "Sohee"@
            } else if has_voice(voices, "Ono_Anna"@) {
                "Ono_Anna"@
            } else {
                voices[0]
            },
        voices.len() > 0 && language == Some("Japanese"@) ==> qwen3_default_voice(voices, language) == if has_voice(voices, "Ono_Anna"@) {
                "Ono_Anna"@
            } else if has_voice(voices, "Sohee"@) {
                "Sohee"@
            } else {
                voices[0]
            },
        voices.len() > 0 && language == Some("Chinese"@) ==> qwen3_default_voice(voices, language) == if has_voice(voices, "Vivian"@) {
                "Vivian"@
            } else if has_voice(voices, "Serena"@) {
                "Serena"@
            } else if has_voice(voices, "Uncle_Fu"@) {
                "Uncle_Fu"@
            } else if has_voice(voices, "Dylan"@) {
                "Dylan"@
            } else {
                voices[0]
            },
        voices.len() > 0 && (language is None || language == Some("English"@)) ==> qwen3_default_voice(voices, language) == if has_voice(voices, "Vivian"@) {
                "Vivian"@
            } else if has_voice(voices, "Ryan"@) {
                "Ryan"@
            } else if has_voice(voices, "Aiden"@) {
                "Aiden"@
            } else if has_voice(voices, "Serena"@) {
                "Serena"@
            } else {
                voices[0]
            },
        voices.len() > 0 && (language matches Some(l) && l != "English"@ && l != "Chinese"@ && l != "Japanese"@ && l != "Korean"@)
            ==> qwen3_default_voice(voices, language) == if has_voice(voices, "Vivian"@) {
                "Vivian"@
            } else if has_voice(voices, "Ryan"@) {
                "Ryan"@
            } else if has_voice(voices, "Aiden"@) {
                "Aiden"@
            } else {
                voices[0]
            },
{
    reveal_strlit("English");
    reveal_strlit("Chinese");
    reveal_strlit("Japanese");
    reveal_strlit("Korean");
    assert("Chinese"@[0] != "English"@[0]);
    assert("Japanese"@.len() != "English"@.len());
    assert("Japanese"@.len() != "Chinese"@.len());
    assert("Korean"@.len() != "English"@.len());
    assert("Korean"@.len() != "Chinese"@.len());
    assert("Korean"@.len() != "Japanese"@.len());
    let pref = preferred_voices(language);
    assert(pref.len() <= 4);
    lemma_first_available_literal(pref, voices, 0);
    lemma_first_available_literal(pref, voices, 1);
    lemma_first_available_literal(pref, voices, 2);
    if pref.len() >= 3 {
        lemma_first_available_literal(pref, voices, 3);
    }
    if pref.len() >= 4 {
        lemma_first_available_literal(pref, voices, 4);
    }
    assert(pref.skip(0) =~= pref);
}


proof fn lemma_tag_prefix_take(s: Seq<char>) -> (k: int)
    ensures
        0 <= k <= s.len(),
        tag_prefix(s) == s.take(k),
        forall|j: int| 0 <= j < k ==> #[trigger] s[j] != '-' && s[j] != '_',
        k < s.len() ==> s[k] == '-' || s[k] == '_',
    decreases s.len(),
{
    if s.len() == 0 || s[0] == '-' || s[0] == '_' {
        assert(s.take(0) =~= Seq::<char>::empty());
        0
    } else {
        let rest = s.drop_first();
        let k = lemma_tag_prefix_take(rest);
        assert(seq![s[0]] + rest.take(k) =~= s.take(k + 1));
        assert forall|j: int| 0 <= j < k + 1 implies #[trigger] s[j] != '-' && s[j] != '_' by {
            if j > 0 {
                assert(s[j] == rest[j - 1]);
            }
        }
        k + 1
    }
}

/// The short form of a language tag is its primary subtag: the trimmed tag up
/// to its first `-` or `_`, in ASCII lower case.
pub proof fn lemma_language_short_is_primary_subtag(lang: Seq<char>)
    ensures
        exists|k: int|
            #![trigger trim(lang).take(k)]
            0 <= k <= trim(lang).len() && language_short(lang) == lowered(trim(lang).take(k)) && (forall|j: int|
                0 <= j < k ==> #[trigger] trim(lang)[j] != '-' && trim(lang)[j] != '_') && (k < trim(lang).len()
                ==> trim(lang)[k] == '-' || trim(lang)[k] == '_'),
{
    let t = trim(lang);
    let k = lemma_tag_prefix_take(t);
    assert(language_short(lang) == lowered(t.take(k)));
    assert(forall|j: int| 0 <= j < k ==> #[trigger] t[j] != '-' && t[j] != '_');
}

} // verus!
