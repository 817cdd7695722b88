//! The resolution pipeline: normalize, tokenize, resolve each token to a
//! phoneme fragment, and concatenate the fragments with no inserted
//! separators.
//!
//! Per-token policy: a word is looked up loosely in the dictionaries (a
//! `Multiple` entry resolves to its `DEFAULT` variant), and an unknown word is
//! delegated to the fallback grapheme-to-phoneme model; a digit sequence is
//! spelled digit by digit through a fixed digit-to-word table and the
//! dictionaries; every other token passes through verbatim.

use vstd::prelude::*;
use vstd::string::*;

use crate::dictionary::{
    assoc_lookup, loose_lookup, pairs_model, str_eq, EntryModel, TranscriptionEntry,
    TranscriptionLookup, TranscriptionStoreEN,
};
use crate::normalizer::{normalize, normalize_spec, push_char};
use crate::tokenizer::{
    concat_slices, lemma_scan_covers, scan_from, EnTokenizer, ScanResult, Token, TokenContext,
};

verus! {

// ---------------------------------------------------------------------------
// Errors
// ---------------------------------------------------------------------------

/// An error of the resolution pipeline. The last two variants are fatal
/// data-integrity violations: they mean the dictionaries were built wrongly,
/// not that the input text was bad.
#[derive(Debug)]
pub enum PhonemizeError {
    /// The tokenizer found a position no rule covers; the text from that
    /// position on is carried for diagnostics.
    Lex { remainder: String },
    /// The fallback model failed to phonemize this word.
    Fallback { word: String },
    /// A `Multiple` entry for this grapheme lacks the `DEFAULT` variant.
    MissingDefaultVariant { grapheme: String },
    /// This spelled-out digit word is missing from every dictionary.
    MissingDigitWord { grapheme: String },
}

/// The fallback model binary failed to load at construction time.
#[derive(Debug)]
pub struct InitError;

/// The model of a fatal resolution failure, carrying the offending grapheme.
pub enum FragmentFailure {
    MissingDefaultVariant(Seq<char>),
    MissingDigitWord(Seq<char>),
}

/// How an executable error realizes a modelled fragment failure.
pub open spec fn err_matches(e: PhonemizeError, f: FragmentFailure) -> bool {
    match f {
        FragmentFailure::MissingDefaultVariant(g) => e matches PhonemizeError::MissingDefaultVariant {
            grapheme,
        } && grapheme@ == g,
        FragmentFailure::MissingDigitWord(g) => e matches PhonemizeError::MissingDigitWord {
            grapheme,
        } && grapheme@ == g,
    }
}

// ---------------------------------------------------------------------------
// Dictionary-backed transcription of one grapheme
// ---------------------------------------------------------------------------

/// The transcription the dictionaries assign to a grapheme: the phoneme
/// string of its loose-lookup entry, where a `Multiple` entry must supply a
/// `DEFAULT` variant; `None` when no dictionary knows the grapheme.
pub open spec fn transcription_of(
    m: Seq<(Seq<char>, EntryModel)>,
    g: Seq<char>,
) -> Result<Option<Seq<char>>, FragmentFailure> {
    match loose_lookup(m, g) {
        Option::None => Ok(Option::None),
        Option::Some(em) => match em {
            EntryModel::Single(p) => Ok(Option::Some(p)),
            EntryModel::Multiple(vm) => match assoc_lookup(vm, "DEFAULT"@) {
                Option::Some(p) => Ok(Option::Some(p)),
                Option::None => Err(FragmentFailure::MissingDefaultVariant(g)),
            },
        },
    }
}

/// The `DEFAULT` variant of a variant mapping, when there is one.
fn default_variant<'a>(pairs: &'a Vec<(String, String)>) -> (r: Option<&'a String>)
    ensures
        match r {
            Some(p) => assoc_lookup(pairs_model(pairs@), "DEFAULT"@) == Some(p@),
            None => assoc_lookup(pairs_model(pairs@), "DEFAULT"@) is None,
        },
{
    let n = pairs.len();
    let mut k: usize = 0;
    proof {
        assert(pairs_model(pairs@).skip(0) =~= pairs_model(pairs@));
    }
    while k < n
        invariant
            n == pairs@.len(),
            k <= n,
            assoc_lookup(pairs_model(pairs@), "DEFAULT"@) == assoc_lookup(
                pairs_model(pairs@).skip(k as int),
                "DEFAULT"@,
            ),
        decreases n - k,
    {
        proof {
            assert(pairs_model(pairs@).skip(k as int)[0] == pairs_model(pairs@)[k as int]);
            assert(pairs_model(pairs@).skip(k as int).drop_first() =~= pairs_model(
                pairs@,
            ).skip(k as int + 1));
        }
        if str_eq(pairs[k].0.as_str(), "DEFAULT") {
            return Some(&pairs[k].1);
        }
        k += 1;
    }
    None
}

/// Resolve one grapheme through the dictionaries: loose lookup, then the
/// `DEFAULT` variant for a `Multiple` entry. `Ok(None)` means no dictionary
/// knows the grapheme; the error is the fatal missing-`DEFAULT` violation.
pub fn look_up_transcription<'a>(store: &'a TranscriptionStoreEN, graphemes: &str) -> (r: Result<
    Option<&'a str>,
    PhonemizeError,
>)
    ensures
        match r {
            Ok(Some(p)) => transcription_of(store@, graphemes@) matches Ok(o) && o == Some(p@),
            Ok(None) => transcription_of(store@, graphemes@) matches Ok(o) && o is None,
            Err(e) => transcription_of(store@, graphemes@) matches Err(f) && err_matches(e, f),
        },
{
    match store.lookup_loose(graphemes) {
        None => Ok(None),
        Some(entry) => match entry {
            TranscriptionEntry::Single(p) => Ok(Some(p.as_str())),
            TranscriptionEntry::Multiple(vm) => match default_variant(vm) {
                Some(p) => Ok(Some(p.as_str())),
                None => Err(
                    PhonemizeError::MissingDefaultVariant { grapheme: graphemes.to_owned() },
                ),
            },
        },
    }
}

// ---------------------------------------------------------------------------
// Digit spelling
// ---------------------------------------------------------------------------

/// The fixed ten-entry digit-to-word table; the empty sequence for any other
/// character.
pub open spec fn spec_digit_word(c: char) -> Seq<char> {
    if c == '0' {
        "zero"@
    } else if c == '1' {
        "one"@
    } else if c == '2' {
        "two"@
    } else if c == '3' {
        "three"@
    } else if c == '4' {
        "four"@
    } else if c == '5' {
        "five"@
    } else if c == '6' {
        "six"@
    } else if c == '7' {
        "seven"@
    } else if c == '8' {
        "eight"@
    } else if c == '9' {
        "nine"@
    } else {
        Seq::empty()
    }
}

fn digit_word(c: char) -> (r: &'static str)
    ensures
        r@ == spec_digit_word(c),
{
    proof {
        reveal_strlit("");
        assert(""@ =~= Seq::<char>::empty());
    }
    if c == '0' {
        "zero"
    } else if c == '1' {
        "one"
    } else if c == '2' {
        "two"
    } else if c == '3' {
        "three"
    } else if c == '4' {
        "four"
    } else if c == '5' {
        "five"
    } else if c == '6' {
        "six"
    } else if c == '7' {
        "seven"
    } else if c == '8' {
        "eight"
    } else if c == '9' {
        "nine"
    } else {
        ""
    }
}

/// The tail of a digit fragment: for each digit in turn, the transcription of
/// its spelled-out word followed by one space. A digit word absent from every
/// dictionary, or one resolving to a `Multiple` entry without `DEFAULT`, is a
/// fatal failure.
pub open spec fn digit_tail_model(
    m: Seq<(Seq<char>, EntryModel)>,
    ds: Seq<char>,
) -> Result<Seq<char>, FragmentFailure>
    decreases ds.len(),
{
    if ds.len() == 0 {
        Ok(Seq::empty())
    } else {
        let w = spec_digit_word(ds[0]);
        match transcription_of(m, w) {
            Err(f) => Err(f),
            Ok(Option::None) => Err(FragmentFailure::MissingDigitWord(w)),
            Ok(Option::Some(p)) => match digit_tail_model(m, ds.drop_first()) {
                Err(f) => Err(f),
                Ok(rest) => Ok(p + seq![' '] + rest),
            },
        }
    }
}

/// A whole digit fragment: one leading space, then each digit's phonemes
/// followed by one space.
pub open spec fn digit_fragment_model(
    m: Seq<(Seq<char>, EntryModel)>,
    ds: Seq<char>,
) -> Result<Seq<char>, FragmentFailure> {
    match digit_tail_model(m, ds) {
        Ok(t) => Ok(seq![' '] + t),
        Err(f) => Err(f),
    }
}

fn digit_tail_exec(store: &TranscriptionStoreEN, digits: &str, i: usize, n: usize) -> (r: Result<
    String,
    PhonemizeError,
>)
    requires
        n == digits@.len(),
        i <= n,
    ensures
        match r {
            Ok(s) => digit_tail_model(store@, digits@.skip(i as int)) == Ok::<
                Seq<char>,
                FragmentFailure,
            >(s@),
            Err(e) => digit_tail_model(store@, digits@.skip(i as int)) matches Err(f)
                && err_matches(e, f),
        },
    decreases n - i,
{
    if i >= n {
        proof {
            assert(digits@.skip(i as int) =~= Seq::<char>::empty());
        }
        return Ok(String::new());
    }
    proof {
        assert(digits@.skip(i as int)[0] == digits@[i as int]);
        assert(digits@.skip(i as int).drop_first() =~= digits@.skip(i as int + 1));
    }
    let c = digits.get_char(i);
    let w = digit_word(c);
    match look_up_transcription(store, w) {
        Err(e) => Err(e),
        Ok(None) => Err(PhonemizeError::MissingDigitWord { grapheme: w.to_owned() }),
        Ok(Some(p)) => {
            let mut piece = p.to_owned();
            push_char(&mut piece, ' ');
            match digit_tail_exec(store, digits, i + 1, n) {
                Err(e) => Err(e),
                Ok(rest) => {
                    piece.append(rest.as_str());
                    proof {
                        assert(piece@ =~= p@ + seq![' '] + rest@);
                    }
                    Ok(piece)
                },
            }
        },
    }
}

/// Spell a digit sequence: a single leading space, then for every digit its
/// dictionary phonemes followed by one space, so that consecutive digits stay
/// separated and the group never merges with adjacent output.
pub fn digit_fragment(store: &TranscriptionStoreEN, digits: &str) -> (r: Result<
    String,
    PhonemizeError,
>)
    ensures
        match r {
            Ok(s) => digit_fragment_model(store@, digits@) == Ok::<Seq<char>, FragmentFailure>(
                s@,
            ),
            Err(e) => digit_fragment_model(store@, digits@) matches Err(f) && err_matches(e, f),
        },
{
    let n = digits.unicode_len();
    proof {
        assert(digits@.skip(0) =~= digits@);
    }
    match digit_tail_exec(store, digits, 0, n) {
        Err(e) => Err(e),
        Ok(tail) => {
            let mut out = String::new();
            push_char(&mut out, ' ');
            out.append(tail.as_str());
            proof {
                assert(out@ =~= seq![' '] + tail@);
            }
            Ok(out)
        },
    }
}

// ---------------------------------------------------------------------------
// Per-token resolution and concatenation
// ---------------------------------------------------------------------------

/// The fragment a token resolves to without the fallback model: a word's
/// dictionary transcription (`Ok(None)` when no dictionary knows it and the
/// fallback must decide), a digit sequence's spelled-out fragment, and the
/// verbatim slice for every other kind.
pub open spec fn fragment_of(
    m: Seq<(Seq<char>, EntryModel)>,
    t: Token,
    slice: Seq<char>,
) -> Result<Option<Seq<char>>, FragmentFailure> {
    match t {
        Token::Word => transcription_of(m, slice),
        Token::DigitSequence => match digit_fragment_model(m, slice) {
            Ok(f) => Ok(Option::Some(f)),
            Err(e) => Err(e),
        },
        _ => Ok(Option::Some(slice)),
    }
}

/// The kind and slice of each token context, in order.
pub open spec fn token_pairs<'a>(tcs: Seq<TokenContext<'a>>) -> Seq<(Token, Seq<char>)> {
    Seq::new(tcs.len(), |k: int| (tcs[k].token, tcs[k].slice@))
}

/// The kind and slice of each token of a scan model over the text `s`.
pub open spec fn model_pairs(s: Seq<char>, m: Seq<(Token, int, int)>) -> Seq<(Token, Seq<char>)> {
    Seq::new(m.len(), |k: int| (m[k].0, s.subrange(m[k].1, m[k].2)))
}

/// Every token resolves to a fragment without the fallback model.
pub open spec fn all_resolvable(
    m: Seq<(Seq<char>, EntryModel)>,
    ps: Seq<(Token, Seq<char>)>,
) -> bool {
    forall|k: int| 0 <= k < ps.len() ==> ((#[trigger] fragment_of(m, ps[k].0, ps[k].1)) matches Ok(
        o,
    ) && o is Some)
}

/// The concatenation of the fragments of fully resolvable tokens.
pub open spec fn resolved_concat(
    m: Seq<(Seq<char>, EntryModel)>,
    ps: Seq<(Token, Seq<char>)>,
) -> Seq<char>
    decreases ps.len(),
{
    if ps.len() == 0 {
        Seq::empty()
    } else {
        (match fragment_of(m, ps[0].0, ps[0].1) {
            Ok(Option::Some(f)) => f,
            _ => Seq::empty(),
        }) + resolved_concat(m, ps.drop_first())
    }
}

/// How a sequence of emitted fragments realizes the tokens: each token that
/// resolves without the fallback contributes exactly its fragment; a token
/// the fallback decided contributes whatever string came back; no token
/// failed fatally.
pub open spec fn frags_consistent(
    m: Seq<(Seq<char>, EntryModel)>,
    ps: Seq<(Token, Seq<char>)>,
    frags: Seq<Seq<char>>,
) -> bool {
    &&& frags.len() == ps.len()
    &&& forall|k: int| 0 <= k < ps.len() ==> match (#[trigger] fragment_of(
        m,
        ps[k].0,
        ps[k].1,
    )) {
        Ok(Option::Some(f)) => frags[k] == f,
        Ok(Option::None) => true,
        Err(_) => false,
    }
}

/// The fragments joined in token order, with no inserted separators.
pub open spec fn concat_frags(frags: Seq<Seq<char>>) -> Seq<char>
    decreases frags.len(),
{
    if frags.len() == 0 {
        Seq::empty()
    } else {
        frags[0] + concat_frags(frags.drop_first())
    }
}

proof fn lemma_concat_frags_push(frags: Seq<Seq<char>>, f: Seq<char>)
    ensures
        concat_frags(frags.push(f)) == concat_frags(frags) + f,
    decreases frags.len(),
{
    if frags.len() == 0 {
        assert(frags.push(f)[0] == f);
        assert(frags.push(f).drop_first() =~= Seq::<Seq<char>>::empty());
        assert(concat_frags(Seq::<Seq<char>>::empty()) == Seq::<char>::empty());
        assert(concat_frags(frags.push(f)) == f + Seq::<char>::empty());
        assert(f + Seq::<char>::empty() =~= f);
        assert(concat_frags(frags) + f =~= f);
    } else {
        assert(frags.push(f).drop_first() =~= frags.drop_first().push(f));
        lemma_concat_frags_push(frags.drop_first(), f);
        assert(concat_frags(frags.push(f)) =~= concat_frags(frags) + f);
    }
}

proof fn lemma_resolved_concat_of_consistent(
    m: Seq<(Seq<char>, EntryModel)>,
    ps: Seq<(Token, Seq<char>)>,
    frags: Seq<Seq<char>>,
)
    requires
        frags_consistent(m, ps, frags),
        all_resolvable(m, ps),
    ensures
        concat_frags(frags) == resolved_concat(m, ps),
    decreases ps.len(),
{
    if ps.len() > 0 {
        assert(fragment_of(m, ps[0].0, ps[0].1) matches Ok(o) && o is Some);
        assert(frags_consistent(m, ps.drop_first(), frags.drop_first())) by {
            assert forall|k: int| 0 <= k < ps.drop_first().len() implies match (
            #[trigger] fragment_of(m, ps.drop_first()[k].0, ps.drop_first()[k].1)) {
                Ok(Option::Some(f)) => frags.drop_first()[k] == f,
                Ok(Option::None) => true,
                Err(_) => false,
            } by {
                assert(ps.drop_first()[k] == ps[k + 1]);
                assert(frags.drop_first()[k] == frags[k + 1]);
            }
        }
        assert(all_resolvable(m, ps.drop_first())) by {
            assert forall|k: int| 0 <= k < ps.drop_first().len() implies (
            #[trigger] fragment_of(m, ps.drop_first()[k].0, ps.drop_first()[k].1)) matches Ok(o)
                && o is Some by {
                assert(ps.drop_first()[k] == ps[k + 1]);
            }
        }
        lemma_resolved_concat_of_consistent(m, ps.drop_first(), frags.drop_first());
    }
}

/// Whether the error `e` is witnessed by some token of `ps`: a fallback
/// failure names an unknown word, and a fatal failure names the grapheme of
/// some token that fails fatally. A lexer error never arises during
/// resolution.
pub open spec fn fragment_error_witness(
    m: Seq<(Seq<char>, EntryModel)>,
    ps: Seq<(Token, Seq<char>)>,
    e: PhonemizeError,
) -> bool {
    match e {
        PhonemizeError::Lex { .. } => false,
        PhonemizeError::Fallback { word } => exists|k: int|
            0 <= k < ps.len() && ((#[trigger] fragment_of(m, ps[k].0, ps[k].1)) matches Ok(o)
                && o is None && ps[k].0 == Token::Word && word@ == ps[k].1),
        PhonemizeError::MissingDefaultVariant { .. } => exists|k: int|
            0 <= k < ps.len() && ((#[trigger] fragment_of(m, ps[k].0, ps[k].1)) matches Err(f)
                && err_matches(e, f)),
        PhonemizeError::MissingDigitWord { .. } => exists|k: int|
            0 <= k < ps.len() && ((#[trigger] fragment_of(m, ps[k].0, ps[k].1)) matches Err(f)
                && err_matches(e, f)),
    }
}

// ---------------------------------------------------------------------------
// The phonemizer
// ---------------------------------------------------------------------------

#[verifier::external_type_specification]
#[verifier::external_body]
pub struct ExPhonetisaurusModel(phonetisaurus_g2p::PhonetisaurusModel);

#[verifier::external_type_specification]
#[verifier::external_body]
pub struct ExAnyhowError(anyhow::Error);

/// Whether the bytes parse as a binary FST model, as decided by
/// `PhonetisaurusModel::try_from(&[u8])`; parsing is deterministic in the
/// bytes alone.
pub uninterp spec fn fst_model_parses(bytes: Seq<u8>) -> bool;

/// Relies on `<PhonetisaurusModel as TryFrom<&[u8]>>::try_from`
/// (phonetisaurus-g2p): parses a binary FST model, deterministically in the
/// bytes; `Err` exactly when the bytes do not hold a valid model.
#[verifier::external_body]
fn load_fallback_model(bytes: &[u8]) -> (r: Result<
    phonetisaurus_g2p::PhonetisaurusModel,
    anyhow::Error,
>)
    ensures
        r is Ok == fst_model_parses(bytes@),
{
    phonetisaurus_g2p::PhonetisaurusModel::try_from(bytes)
}

/// Relies on `PhonetisaurusModel::phonemize_word` (phonetisaurus-g2p): the
/// phoneme string the FST produces for the word, or `Err` when the model
/// cannot transcribe it. What comes back depends on the loaded model, so
/// nothing more is promised of it.
#[verifier::external_body]
fn phonemize_word_fallback(
    model: &phonetisaurus_g2p::PhonetisaurusModel,
    word: &str,
) -> Result<String, anyhow::Error> {
    match model.phonemize_word(word) {
        Ok(result) => Ok(result.phonemes),
        Err(e) => Err(e),
    }
}

/// The English phonemizer: the dictionary store and the fallback
/// grapheme-to-phoneme model. Built once and reused across calls; lookups
/// never mutate it, so shared references may be used from many threads as
/// long as the fallback model is safe for concurrent reads.
pub struct EnPhonemizer {
    /// The dictionaries, searched in priority order.
    pub store: TranscriptionStoreEN,
    fallback: phonetisaurus_g2p::PhonetisaurusModel,
}

impl EnPhonemizer {
    /// The model of the dictionaries this phonemizer resolves against.
    pub closed spec fn store_model(&self) -> Seq<(Seq<char>, EntryModel)> {
        self.store@
    }

    /// Create a phonemizer over the given dictionaries and fallback model
    /// binary. Succeeds exactly when the binary parses as an FST model, and
    /// fails fast otherwise, before any `phonemize` call is possible.
    pub fn new(store: TranscriptionStoreEN, model_bytes: &[u8]) -> (r: Result<
        EnPhonemizer,
        InitError,
    >)
        ensures
            r is Ok <==> fst_model_parses(model_bytes@),
            r matches Ok(p) ==> p.store_model() == store@,
    {
        match load_fallback_model(model_bytes) {
            Ok(model) => Ok(EnPhonemizer { store, fallback: model }),
            Err(_) => Err(InitError),
        }
    }

    /// Resolve every token to its phoneme fragment and join the fragments in
    /// token order with no inserted separators. Fails on the first fatal
    /// dictionary violation or fallback failure, with no partial result.
    pub fn tokens2phonemes(&self, tokens: &Vec<TokenContext>) -> (r: Result<
        String,
        PhonemizeError,
    >)
        ensures
            all_resolvable(self.store_model(), token_pairs(tokens@)) ==> (r matches Ok(out) && out@
                == resolved_concat(self.store_model(), token_pairs(tokens@))),
            r matches Ok(out) ==> exists|frags: Seq<Seq<char>>|
                #[trigger] frags_consistent(self.store_model(), token_pairs(tokens@), frags) && out@
                    == concat_frags(frags),
            r matches Err(e) ==> fragment_error_witness(self.store_model(), token_pairs(tokens@), e),
    {
        let ghost ps = token_pairs(tokens@);
        let n = tokens.len();
        let mut out = String::new();
        let ghost mut frags: Seq<Seq<char>> = Seq::empty();
        let mut idx: usize = 0;
        while idx < n
            invariant
                n == tokens@.len(),
                idx <= n,
                ps == token_pairs(tokens@),
                frags.len() == idx,
                forall|k: int| 0 <= k < idx ==> match (#[trigger] fragment_of(
                    self.store@,
                    ps[k].0,
                    ps[k].1,
                )) {
                    Ok(Option::Some(f)) => frags[k] == f,
                    Ok(Option::None) => ps[k].0 == Token::Word,
                    Err(_) => false,
                },
                out@ == concat_frags(frags),
            decreases n - idx,
        {
            let t = tokens[idx].token;
            let sl = tokens[idx].slice;
            proof {
                assert(ps[idx as int] == (t, sl@));
            }
            match t {
                Token::Word => {
                    match look_up_transcription(&self.store, sl) {
                        Err(e) => {
                            proof {
                                assert(fragment_of(self.store@, ps[idx as int].0, ps[idx as int].1)
                                    matches Err(f) && err_matches(e, f));
                            }
                            return Err(e);
                        },
                        Ok(Some(p)) => {
                            proof {
                                lemma_concat_frags_push(frags, p@);
                                frags = frags.push(p@);
                            }
                            out.append(p);
                        },
                        Ok(None) => {
                            match phonemize_word_fallback(&self.fallback, sl) {
                                Ok(ph) => {
                                    proof {
                                        lemma_concat_frags_push(frags, ph@);
                                        frags = frags.push(ph@);
                                    }
                                    out.append(ph.as_str());
                                },
                                Err(_) => {
                                    return Err(
                                        PhonemizeError::Fallback { word: sl.to_owned() },
                                    );
                                },
                            }
                        },
                    }
                },
                Token::DigitSequence => {
                    match digit_fragment(&self.store, sl) {
                        Err(e) => {
                            return Err(e);
                        },
                        Ok(f) => {
                            proof {
                                lemma_concat_frags_push(frags, f@);
                                frags = frags.push(f@);
                            }
                            out.append(f.as_str());
                        },
                    }
                },
                _ => {
                    proof {
                        lemma_concat_frags_push(frags, sl@);
                        frags = frags.push(sl@);
                    }
                    out.append(sl);
                },
            }
            idx += 1;
        }
        proof {
            assert(frags_consistent(self.store_model(), ps, frags));
            if all_resolvable(self.store@, ps) {
                lemma_resolved_concat_of_consistent(self.store@, ps, frags);
            }
        }
        Ok(out)
    }

    /// Phonemize a text: normalize it, tokenize the normalized text, resolve
    /// every token, and join the fragments. A lexical error carries the
    /// uncovered remainder; resolution errors abort the whole call with no
    /// partial output.
    pub fn phonemize(&self, text: &str) -> (r: Result<String, PhonemizeError>)
        ensures
            ({
                let nm = normalize_spec(text@);
                match scan_from(nm, 0) {
                    ScanResult::Fail(p) => r matches Err(e) && e matches PhonemizeError::Lex {
                        remainder,
                    } && remainder@ == nm.subrange(p, nm.len() as int),
                    ScanResult::Tokens(m) => {
                        let ps = model_pairs(nm, m);
                        &&& (all_resolvable(self.store_model(), ps) ==> (r matches Ok(out)
                            && out@ == resolved_concat(self.store_model(), ps)))
                        &&& (r matches Ok(out) ==> exists|frags: Seq<Seq<char>>|
                            #[trigger] frags_consistent(self.store_model(), ps, frags) && out@
                                == concat_frags(frags))
                        &&& (r matches Err(e) ==> fragment_error_witness(self.store_model(), ps, e))
                    },
                }
            }),
    {
        let normalized = normalize(text);
        match EnTokenizer::tokenize(normalized.as_str()) {
            Err(e) => Err(PhonemizeError::Lex { remainder: e.remainder }),
            Ok(tokens) => {
                proof {
                    let nm = normalize_spec(text@);
                    let m = scan_from(nm, 0)->Tokens_0;
                    assert forall|k: int| 0 <= k < m.len() implies token_pairs(tokens@)[k]
                        == model_pairs(nm, m)[k] by {}
                    assert(token_pairs(tokens@) =~= model_pairs(nm, m));
                }
                self.tokens2phonemes(&tokens)
            },
        }
    }
}

// ---------------------------------------------------------------------------
// The pipeline's coverage law
// ---------------------------------------------------------------------------

/// Law: coverage round trip. Whenever the normalized text scans into tokens,
/// concatenating the tokens' slices in order reproduces the normalized text
/// exactly: no character is skipped and none is duplicated.
pub proof fn lemma_tokenize_normalize_round_trip(text: Seq<char>, m: Seq<(Token, int, int)>)
    requires
        scan_from(normalize_spec(text), 0) == ScanResult::Tokens(m),
    ensures
        concat_slices(normalize_spec(text), m) == normalize_spec(text),
{
    let nm = normalize_spec(text);
    lemma_scan_covers(nm, 0, m);
    assert(nm.subrange(0, nm.len() as int) =~= nm);
}

} // verus!
