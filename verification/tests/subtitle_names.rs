use media_manager::engine::tv_route::detect_language_and_flags;

#[test]
fn detects_plain_language() {
    let (lang, flags) = detect_language_and_flags("Show.S01E01.en");
    assert_eq!(lang, "en");
    assert!(flags.is_none());
}

#[test]
fn detects_forced_flag() {
    let (lang, flags) = detect_language_and_flags("Show.S01E01.en.forced");
    assert_eq!(lang, "en");
    assert_eq!(flags.as_deref(), Some("forced"));
}

#[test]
fn detects_sdh_flag_from_hi() {
    let (lang, flags) = detect_language_and_flags("Show.S01E01.en.hi");
    assert_eq!(lang, "en");
    assert_eq!(flags.as_deref(), Some("sdh"));
}

#[test]
fn undetected_language_is_und() {
    let (lang, _) = detect_language_and_flags("Show.S01E01");
    assert_eq!(lang, "und");
}
