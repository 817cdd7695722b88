use phonemoro::dictionary::{
    TranscriptionDict, TranscriptionEntry, TranscriptionLookup, TranscriptionStoreEN,
};
use phonemoro::normalizer::normalize;
use phonemoro::phonemizer::{digit_fragment, look_up_transcription, PhonemizeError};
use phonemoro::EnPhonemizer;

fn dict(name: &str, entries: Vec<(&str, TranscriptionEntry)>) -> TranscriptionDict {
    TranscriptionDict {
        dict_name: name.to_string(),
        entries: entries
            .into_iter()
            .map(|(k, v)| (k.to_string(), v))
            .collect(),
    }
}

fn single(p: &str) -> TranscriptionEntry {
    TranscriptionEntry::Single(p.to_string())
}

fn multiple(pairs: &[(&str, &str)]) -> TranscriptionEntry {
    TranscriptionEntry::Multiple(
        pairs
            .iter()
            .map(|(k, v)| (k.to_string(), v.to_string()))
            .collect(),
    )
}

#[test]
fn normalize_leaves_ascii_unchanged() {
    assert_eq!(normalize("Hello there 123."), "Hello there 123.");
}

#[test]
fn normalize_substitutes_typographic_characters() {
    assert_eq!(normalize("don\u{2019}t \u{201c}yes\u{201d} \u{2013} ok"), "don't \"yes\" - ok");
}

#[test]
fn normalize_applies_nfkc() {
    // Fullwidth digits and the ellipsis have NFKC compatibility decompositions.
    assert_eq!(normalize("\u{ff11}\u{ff12}"), "12");
    assert_eq!(normalize("wait\u{2026}"), "wait...");
}

#[test]
fn normalize_is_idempotent_on_samples() {
    for text in ["don\u{2019}t \u{2014} \u{201c}x\u{201d}", "caf\u{e9} \u{2026}", "plain"] {
        let once = normalize(text);
        assert_eq!(normalize(&once), once);
    }
}

#[test]
fn lookup_exact_respects_priority_order() {
    let store = TranscriptionStoreEN {
        dicts: vec![
            dict("gold", vec![("the", single("GOLD"))]),
            dict("silver", vec![("the", single("SILVER")), ("cat", single("kat"))]),
        ],
    };
    match store.lookup_exact("the").unwrap() {
        TranscriptionEntry::Single(p) => assert_eq!(p, "GOLD"),
        _ => panic!("expected a single entry"),
    }
    match store.lookup_exact("cat").unwrap() {
        TranscriptionEntry::Single(p) => assert_eq!(p, "kat"),
        _ => panic!("expected a single entry"),
    }
    assert!(store.lookup_exact("dog").is_none());
}

#[test]
fn lookup_loose_agrees_with_exact_lookups() {
    let store = TranscriptionStoreEN {
        dicts: vec![dict("gold", vec![("the", single("\u{f0}\u{259}")), ("NASA", single("nasa"))])],
    };
    // Exact hit: loose equals exact.
    for g in ["the", "NASA"] {
        let loose = store.lookup_loose(g).unwrap();
        let exact = store.lookup_exact(g).unwrap();
        match (loose, exact) {
            (TranscriptionEntry::Single(a), TranscriptionEntry::Single(b)) => assert_eq!(a, b),
            _ => panic!("expected single entries"),
        }
    }
    // Exact miss: loose equals the exact lookup of the lowercased grapheme.
    assert!(store.lookup_exact("The").is_none());
    let loose = store.lookup_loose("The").unwrap();
    let lowered = store.lookup_exact("the").unwrap();
    match (loose, lowered) {
        (TranscriptionEntry::Single(a), TranscriptionEntry::Single(b)) => assert_eq!(a, b),
        _ => panic!("expected single entries"),
    }
    // Miss both ways.
    assert!(store.lookup_loose("Dog").is_none());
}

#[test]
fn capitalized_word_resolves_via_loose_lookup() {
    let store = TranscriptionStoreEN {
        dicts: vec![dict("gold", vec![("the", single("\u{f0}\u{259}"))])],
    };
    let phonemes = look_up_transcription(&store, "The").unwrap().unwrap();
    assert_eq!(phonemes, "\u{f0}\u{259}");
}

#[test]
fn multiple_entry_resolves_to_default_variant() {
    let store = TranscriptionStoreEN {
        dicts: vec![dict(
            "gold",
            vec![("read", multiple(&[("PAST", "r\u{25b}d"), ("DEFAULT", "\u{279}i\u{2d0}d")]))],
        )],
    };
    let phonemes = look_up_transcription(&store, "read").unwrap().unwrap();
    assert_eq!(phonemes, "\u{279}i\u{2d0}d");
}

#[test]
fn multiple_entry_without_default_is_a_fatal_error() {
    let store = TranscriptionStoreEN {
        dicts: vec![dict("gold", vec![("read", multiple(&[("PAST", "r\u{25b}d")]))])],
    };
    let err = look_up_transcription(&store, "read").unwrap_err();
    match err {
        PhonemizeError::MissingDefaultVariant { grapheme } => assert_eq!(grapheme, "read"),
        other => panic!("expected a missing-DEFAULT error, got {:?}", other),
    }
}

#[test]
fn unknown_word_is_not_an_error_in_lookup() {
    let store = TranscriptionStoreEN { dicts: vec![dict("gold", vec![])] };
    assert!(look_up_transcription(&store, "zyx").unwrap().is_none());
}

#[test]
fn digit_fragment_is_space_separated_and_padded() {
    let store = TranscriptionStoreEN {
        dicts: vec![dict(
            "gold",
            vec![("one", single("w\u{28c}n")), ("two", single("tu\u{2d0}"))],
        )],
    };
    let fragment = digit_fragment(&store, "12").unwrap();
    assert_eq!(fragment, " w\u{28c}n tu\u{2d0} ");
}

#[test]
fn digit_word_missing_from_dictionaries_is_a_fatal_error() {
    let store = TranscriptionStoreEN {
        dicts: vec![dict("gold", vec![("one", single("w\u{28c}n"))])],
    };
    let err = digit_fragment(&store, "12").unwrap_err();
    match err {
        PhonemizeError::MissingDigitWord { grapheme } => assert_eq!(grapheme, "two"),
        other => panic!("expected a missing-digit-word error, got {:?}", other),
    }
}

#[test]
fn digit_word_resolves_through_loose_lookup_and_default() {
    // The digit word itself may be a Multiple entry; DEFAULT is used.
    let store = TranscriptionStoreEN {
        dicts: vec![dict(
            "gold",
            vec![("seven", multiple(&[("DEFAULT", "s\u{25b}v\u{259}n")]))],
        )],
    };
    let fragment = digit_fragment(&store, "7").unwrap();
    assert_eq!(fragment, " s\u{25b}v\u{259}n ");
}

#[test]
fn phonemizer_construction_fails_fast_on_bad_model() {
    let store = TranscriptionStoreEN { dicts: vec![dict("gold", vec![])] };
    assert!(EnPhonemizer::new(store, &[]).is_err());
}
