//! End-to-end tests of `phonemize` with a small hand-built fallback FST.

use std::sync::Arc;

use rustfst::fst_impls::VectorFst;
use rustfst::fst_traits::{Fst, MutableFst, SerializableFst};
use rustfst::semirings::{Semiring, TropicalWeight};
use rustfst::SymbolTable;
use rustfst::Tr;

use phonemoro::dictionary::{TranscriptionDict, TranscriptionEntry, TranscriptionStoreEN};
use phonemoro::{EnPhonemizer, PhonemizeError};

/// A one-state transducer that maps the letters `h` and `i` to the output
/// symbols `ha` and `\u{26a}`, serialized the way a trained model would be.
fn tiny_model() -> Vec<u8> {
    let mut isyms = SymbolTable::new();
    let h_in = isyms.add_symbol("h");
    let i_in = isyms.add_symbol("i");
    let mut osyms = SymbolTable::new();
    let h_out = osyms.add_symbol("ha");
    let i_out = osyms.add_symbol("\u{26a}");

    let mut fst: VectorFst<TropicalWeight> = VectorFst::new();
    let q0 = fst.add_state();
    fst.set_start(q0).unwrap();
    fst.set_final(q0, TropicalWeight::one()).unwrap();
    fst.add_tr(q0, Tr::new(h_in, h_out, TropicalWeight::one(), q0))
        .unwrap();
    fst.add_tr(q0, Tr::new(i_in, i_out, TropicalWeight::one(), q0))
        .unwrap();
    fst.set_input_symbols(Arc::new(isyms));
    fst.set_output_symbols(Arc::new(osyms));

    let mut bytes = Vec::new();
    fst.store(&mut bytes).unwrap();
    bytes
}

fn store() -> TranscriptionStoreEN {
    TranscriptionStoreEN {
        dicts: vec![TranscriptionDict {
            dict_name: "gold".to_string(),
            entries: vec![
                (
                    "the".to_string(),
                    TranscriptionEntry::Single("\u{f0}\u{259}".to_string()),
                ),
                (
                    "one".to_string(),
                    TranscriptionEntry::Single("w\u{28c}n".to_string()),
                ),
                (
                    "two".to_string(),
                    TranscriptionEntry::Single("tu\u{2d0}".to_string()),
                ),
            ],
        }],
    }
}

#[test]
fn phonemize_resolves_known_words_and_passes_punctuation_through() {
    let p = EnPhonemizer::new(store(), &tiny_model()).unwrap();
    assert_eq!(p.phonemize("The the.").unwrap(), "\u{f0}\u{259} \u{f0}\u{259}.");
}

#[test]
fn phonemize_delegates_unknown_words_to_the_fallback_model() {
    let p = EnPhonemizer::new(store(), &tiny_model()).unwrap();
    assert_eq!(p.phonemize("the hi").unwrap(), "\u{f0}\u{259} ha\u{26a}");
}

#[test]
fn phonemize_spells_out_digit_sequences() {
    let p = EnPhonemizer::new(store(), &tiny_model()).unwrap();
    assert_eq!(p.phonemize("12").unwrap(), " w\u{28c}n tu\u{2d0} ");
}

#[test]
fn phonemize_fails_with_the_offending_word_when_the_model_cannot() {
    let p = EnPhonemizer::new(store(), &tiny_model()).unwrap();
    match p.phonemize("zq").unwrap_err() {
        PhonemizeError::Fallback { word } => assert_eq!(word, "zq"),
        other => panic!("expected a fallback error, got {:?}", other),
    }
}

#[test]
fn phonemize_normalizes_before_resolving() {
    // The curly apostrophe becomes an ASCII one before tokenization; it ends
    // the word and passes through as a Special token.
    let p = EnPhonemizer::new(store(), &tiny_model()).unwrap();
    assert_eq!(p.phonemize("hi\u{2019}").unwrap(), "ha\u{26a}'");
}
