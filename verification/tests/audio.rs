use dekho::audio::{detect, Audio, Dual};

#[test]
fn flags_decode_to_languages() {
    let a = detect("Some Release\n👤 15 💾 2.49 GB\n🇬🇧 / 🇮🇹 / 🇮🇳");
    assert!(a.hindi, "IN flag means Hindi audio");
    assert!(a.english, "GB flag means English audio");
    assert!(a.others.contains("Italian"));
    assert_eq!(a.dual(), Dual::Yes);
}

#[test]
fn a_single_hindi_flag_is_not_dual() {
    let a = detect("3 Idiots 2009 1080p BluRay x264 Hindi AAC\n🇮🇳");
    assert!(a.hindi);
    assert!(!a.english);
    assert_eq!(a.dual(), Dual::No);
}

#[test]
fn explicit_dual_audio_marker_with_one_language_is_likely() {
    let a = detect("Movie.2019.1080p.BluRay.Dual.Audio.Hindi.DD5.1-XYZ");
    assert!(a.multi_marker);
    assert!(a.hindi);
    assert_eq!(a.dual(), Dual::Likely);
}

#[test]
fn both_languages_named_is_definite() {
    let a = detect("Movie.2019.1080p.Dual.Audio.Hindi.English.x264");
    assert_eq!(a.dual(), Dual::Yes);
}

#[test]
fn hin_eng_abbreviation_is_recognised() {
    let a = detect("Movie 2019 1080p BluRay Hin-Eng x264");
    assert!(a.hindi);
    assert!(a.english);
    assert_eq!(a.dual(), Dual::Yes);
}

#[test]
fn bracketed_form_is_recognised() {
    let a = detect("Movie (2019) 1080p [Hindi + English] BluRay");
    assert_eq!(a.dual(), Dual::Yes);
}

#[test]
fn abbreviations_do_not_fire_inside_longer_words() {
    // "England" must not read as English audio, nor "Hinterland" as Hindi.
    let a = detect("Hinterland.S01.England.1080p.WEB");
    assert!(!a.english, "England should not imply English audio");
    assert!(!a.hindi, "Hinterland should not imply Hindi audio");
}

#[test]
fn a_european_multi_audio_release_is_not_hindi_dual() {
    // Observed on Breaking Bad: multi-language, but not the two languages
    // that were asked for, so it must not be promoted.
    let a = detect("Breaking.Bad.S02E01.720p.Dual.Audio.English.Portuguese.Spanish");
    assert!(a.multi_marker);
    assert!(!a.hindi);
    assert_eq!(a.dual(), Dual::No);
}

#[test]
fn dual_audio_naming_only_english_is_not_enough() {
    let a = detect("Movie.2019.1080p.Dual.Audio.English.x264");
    assert_eq!(a.dual(), Dual::No, "no evidence of Hindi");
}

#[test]
fn a_plain_english_release_is_not_dual() {
    let a = detect("3.Idiots.2009.1080p.BluRay.x264-PHOBOS");
    assert_eq!(a.dual(), Dual::No);
    assert!(!a.hindi);
}

#[test]
fn dual_ranks_above_likely_ranks_above_none() {
    assert!(Dual::Yes > Dual::Likely);
    assert!(Dual::Likely > Dual::No);
}

#[test]
fn other_south_asian_languages_are_listed() {
    let a = detect("Movie.2019.Tamil.Telugu.Hindi.1080p");
    assert!(a.others.contains("Tamil"));
    assert!(a.others.contains("Telugu"));
    assert!(a.hindi);
}

#[test]
fn labels_read_sensibly() {
    assert_eq!(
        detect("Movie.Dual.Audio.Hindi.English").label(),
        "Dual Hindi+English"
    );
    assert_eq!(detect("Movie.Hindi.1080p").label(), "Hindi");
    assert_eq!(detect("Movie.1080p.x264").label(), "");
}

#[test]
fn unpaired_regional_indicators_are_ignored() {
    // A lone indicator is not a flag and must not panic or half-decode.
    let a = detect("Movie \u{1F1EE} 1080p");
    assert_eq!(a, Audio::default());
}

#[test]
fn us_flag_also_counts_as_english() {
    let a = detect("Movie\n🇺🇸 / 🇮🇳");
    assert!(a.english);
    assert!(a.hindi);
    assert_eq!(a.dual(), Dual::Yes);
}
