use epub_tts::tts_engine::{
    default_qwen3_voice, parse_backend, parse_device, resolve_engine_settings, truncate, Backend, BuildFeatures, DeviceKind,
    ModelFamily, TtsOptions,
};

#[test]
fn backend_names_round_trip() {
    for b in [
        Backend::Kokoro,
        Backend::OmniVoice,
        Backend::Qwen3Tts,
        Backend::VibeVoice,
        Backend::VibeVoiceRealtime,
        Backend::Voxtral,
    ] {
        assert_eq!(parse_backend(b.as_str()), Ok(b));
    }
}

#[test]
fn backend_aliases_and_case() {
    assert_eq!(parse_backend("QWEN"), Ok(Backend::Qwen3Tts));
    assert_eq!(parse_backend("Qwen3-TTS"), Ok(Backend::Qwen3Tts));
    assert_eq!(parse_backend("omni"), Ok(Backend::OmniVoice));
    assert_eq!(parse_backend("Vibe-Realtime"), Ok(Backend::VibeVoiceRealtime));
    assert_eq!(parse_backend("realtime"), Ok(Backend::VibeVoiceRealtime));
    assert_eq!(parse_backend("vibe"), Ok(Backend::VibeVoice));
    assert_eq!("voxtral".parse::<Backend>(), Ok(Backend::Voxtral));
}

#[test]
fn unknown_backend_message() {
    assert_eq!(
        parse_backend("Piper"),
        Err("unknown backend 'piper'. Choose: kokoro, omnivoice, qwen3, vibevoice, vibevoice-realtime, voxtral".to_string())
    );
}

#[test]
fn devices_parse() {
    assert_eq!(parse_device("AUTO"), Ok(DeviceKind::Auto));
    assert_eq!(parse_device("cpu"), Ok(DeviceKind::Cpu));
    assert_eq!(parse_device("Metal"), Ok(DeviceKind::Metal));
    assert_eq!("cuda".parse::<DeviceKind>(), Ok(DeviceKind::Cuda));
    assert_eq!(
        parse_device("tpu"),
        Err("unknown device 'tpu'. Choose: auto, cpu, metal, cuda".to_string())
    );
}

#[test]
fn model_types_follow_build_features() {
    assert_eq!(Backend::Qwen3Tts.model_type(), Ok(ModelFamily::Qwen3Tts));
    assert_eq!(
        Backend::Kokoro.model_type(),
        Err("backend 'kokoro' requires --features kokoro".to_string())
    );
    assert_eq!(
        Backend::VibeVoiceRealtime.model_type(),
        Err("backend 'vibevoice-realtime' requires --features vibevoice".to_string())
    );
    let all = BuildFeatures { kokoro: true, omnivoice: true, qwen3_tts: true, vibevoice: true, voxtral: true };
    assert_eq!(Backend::VibeVoiceRealtime.model_type_for(all), Ok(ModelFamily::VibeVoiceRealtime));
    assert_eq!(Backend::Voxtral.model_type_for(all), Ok(ModelFamily::Voxtral));
}

#[test]
fn languages_for_qwen3() {
    assert_eq!(Backend::Qwen3Tts.normalize_language("en-US"), "English");
    assert_eq!(Backend::Qwen3Tts.normalize_language(" de_DE "), "German");
    assert_eq!(Backend::Qwen3Tts.normalize_language("FRE"), "French");
    assert_eq!(Backend::Qwen3Tts.normalize_language("English"), "English");
    assert_eq!(Backend::Qwen3Tts.normalize_language("auto"), "auto");
    assert_eq!(Backend::Qwen3Tts.normalize_language(" Klingon "), "Klingon");
    assert_eq!(Backend::Qwen3Tts.normalize_language("nl"), "nl");
}

#[test]
fn languages_for_other_backends() {
    assert_eq!(Backend::Kokoro.normalize_language("en-US"), "en");
    assert_eq!(Backend::Kokoro.normalize_language(" PT_br "), "pt");
    assert_eq!(Backend::Voxtral.normalize_language("English"), "english");
}

fn opts(backend: Backend, language: Option<&str>, voice: Option<&str>) -> TtsOptions {
    TtsOptions {
        backend,
        model_path: None,
        device: DeviceKind::Auto,
        language: language.map(String::from),
        voice: voice.map(String::from),
        instruct: Some("calm".to_string()),
    }
}

#[test]
fn qwen3_default_voice_follows_language() {
    let voices = vec!["serena".to_string(), "ono_anna".to_string(), "Sohee".to_string()];
    let s = resolve_engine_settings(&opts(Backend::Qwen3Tts, Some("ja"), None), &voices);
    assert_eq!(s.language.as_deref(), Some("Japanese"));
    assert_eq!(s.voice.as_deref(), Some("Ono_Anna"));
    assert_eq!(s.instruct.as_deref(), Some("calm"));
    let s = resolve_engine_settings(&opts(Backend::Qwen3Tts, None, None), &voices);
    assert_eq!(s.voice.as_deref(), Some("Serena"));
    let s = resolve_engine_settings(&opts(Backend::Qwen3Tts, Some("nl"), None), &voices);
    assert_eq!(s.voice.as_deref(), Some("serena"));
    let s = resolve_engine_settings(&opts(Backend::Qwen3Tts, Some("ko"), None), &vec![]);
    assert_eq!(s.voice.as_deref(), Some("Vivian"));
}

#[test]
fn explicit_voice_wins_and_other_backends_get_none() {
    let voices = vec!["Ryan".to_string()];
    let s = resolve_engine_settings(&opts(Backend::Qwen3Tts, Some("en"), Some("Aiden")), &voices);
    assert_eq!(s.voice.as_deref(), Some("Aiden"));
    let s = resolve_engine_settings(&opts(Backend::Kokoro, Some("en-GB"), None), &voices);
    assert_eq!(s.voice, None);
    assert_eq!(s.language.as_deref(), Some("en"));
}

#[test]
fn truncate_for_errors() {
    assert_eq!(truncate("short", 80), "short");
    assert_eq!(truncate("abcdef", 3), "abc…");
}

#[test]
fn normalize_language_is_idempotent() {
    for tag in ["en-US", "zh_CN", "Japanese", "auto", " Klingon ", "pt-BR", "xx"] {
        for b in [Backend::Qwen3Tts, Backend::Kokoro] {
            let once = b.normalize_language(tag);
            assert_eq!(b.normalize_language(&once), once, "{tag}");
        }
    }
    // A short tag with a trailing space is trimmed by a second pass.
    assert_eq!(Backend::Kokoro.normalize_language("en -US"), "en ");
    assert_eq!(Backend::Kokoro.normalize_language("en "), "en");
}

#[test]
fn default_voice_prefers_list_order() {
    let voices = vec!["serena".to_string(), "ryan".to_string()];
    assert_eq!(default_qwen3_voice(&voices, Some("English")), Some("Ryan".to_string()));
    assert_eq!(default_qwen3_voice(&voices, None), Some("Ryan".to_string()));
    let voices = vec!["x".to_string(), "SOHEE".to_string()];
    assert_eq!(default_qwen3_voice(&voices, Some("Japanese")), Some("Sohee".to_string()));
    let voices = vec!["x".to_string(), "y".to_string()];
    assert_eq!(default_qwen3_voice(&voices, Some("Chinese")), Some("x".to_string()));
    assert_eq!(default_qwen3_voice(&Vec::new(), None), Some("Vivian".to_string()));
}
