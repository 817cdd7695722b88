//! Transcription dictionaries: immutable grapheme-to-transcription mappings
//! with exact and loose (lowercase-retry) lookup, and an ordered store of
//! dictionaries searched in priority order.

use vstd::prelude::*;
use vstd::string::*;

verus! {

/// The mathematical model of a transcription entry: one phoneme string, or a
/// variant-tag-to-phoneme-string mapping, as an association list.
pub enum EntryModel {
    Single(Seq<char>),
    Multiple(Seq<(Seq<char>, Seq<char>)>),
}

/// A transcription entry: either a single phoneme string, or a mapping from
/// variant tag to phoneme string for graphemes with several readings.
#[derive(Debug, Clone)]
pub enum TranscriptionEntry {
    Single(String),
    Multiple(Vec<(String, String)>),
}

/// The views of a vector of string pairs, in order.
pub open spec fn pairs_model(v: Seq<(String, String)>) -> Seq<(Seq<char>, Seq<char>)> {
    Seq::new(v.len(), |i: int| (v[i].0@, v[i].1@))
}

impl View for TranscriptionEntry {
    type V = EntryModel;

    open spec fn view(&self) -> EntryModel {
        match self {
            TranscriptionEntry::Single(p) => EntryModel::Single(p@),
            TranscriptionEntry::Multiple(m) => EntryModel::Multiple(pairs_model(m@)),
        }
    }
}

/// First-match lookup in an association list keyed by character sequences.
pub open spec fn assoc_lookup<V>(entries: Seq<(Seq<char>, V)>, key: Seq<char>) -> Option<V>
    decreases entries.len(),
{
    if entries.len() == 0 {
        None
    } else if entries[0].0 == key {
        Some(entries[0].1)
    } else {
        assoc_lookup(entries.drop_first(), key)
    }
}

/// Looking a key up in two association lists joined in order searches the
/// first and falls back to the second.
pub proof fn lemma_assoc_lookup_concat<V>(
    a: Seq<(Seq<char>, V)>,
    b: Seq<(Seq<char>, V)>,
    key: Seq<char>,
)
    ensures
        assoc_lookup(a + b, key) == if assoc_lookup(a, key) is Some {
            assoc_lookup(a, key)
        } else {
            assoc_lookup(b, key)
        },
    decreases a.len(),
{
    if a.len() == 0 {
        assert(a + b =~= b);
    } else {
        assert((a + b)[0] == a[0]);
        assert((a + b).drop_first() =~= a.drop_first() + b);
        lemma_assoc_lookup_concat(a.drop_first(), b, key);
    }
}

/// The Unicode-lowercased form of a character sequence, as decided by
/// `str::to_lowercase`.
pub uninterp spec fn lower_of(s: Seq<char>) -> Seq<char>;

/// Relies on `str::to_lowercase` (std): the lowercase equivalent of the
/// string, per the Unicode `Lowercase_Mapping`; the result depends on the
/// characters alone.
#[verifier::external_body]
fn lowercase(s: &str) -> (r: String)
    ensures
        r@ == lower_of(s@),
{
    s.to_lowercase()
}

/// Whether two string slices hold the same characters, compared one by one.
pub(crate) fn str_eq(a: &str, b: &str) -> (r: bool)
    ensures
        r == (a@ == b@),
{
    let na = a.unicode_len();
    let nb = b.unicode_len();
    if na != nb {
        return false;
    }
    let mut i: usize = 0;
    while i < na
        invariant
            na == a@.len(),
            na == b@.len(),
            i <= na,
            forall|k: int| 0 <= k < i ==> a@[k] == b@[k],
        decreases na - i,
    {
        if a.get_char(i) != b.get_char(i) {
            return false;
        }
        i += 1;
    }
    proof {
        assert(a@ =~= b@);
    }
    true
}

/// Loose lookup over a model: the exact match when there is one, otherwise
/// the match for the lowercased key.
pub open spec fn loose_lookup(
    m: Seq<(Seq<char>, EntryModel)>,
    g: Seq<char>,
) -> Option<EntryModel> {
    if assoc_lookup(m, g) is Some {
        assoc_lookup(m, g)
    } else {
        assoc_lookup(m, lower_of(g))
    }
}

/// A source of transcription entries, searched as an ordered list of
/// grapheme-to-entry pairs.
pub trait TranscriptionLookup {
    /// The grapheme-to-entry pairs this source searches, in priority order.
    spec fn lookup_model(&self) -> Seq<(Seq<char>, EntryModel)>;

    /// Exact, case-sensitive lookup: the first entry whose key equals the
    /// grapheme, `None` when no entry does.
    fn lookup_exact(&self, graphemes: &str) -> (r: Option<&TranscriptionEntry>)
        ensures
            match r {
                Some(e) => assoc_lookup(self.lookup_model(), graphemes@) == Some(e@),
                None => assoc_lookup(self.lookup_model(), graphemes@) is None,
            },
    ;

    /// Loose lookup: the exact match when there is one, otherwise the exact
    /// match for the lowercased grapheme.
    fn lookup_loose(&self, graphemes: &str) -> (r: Option<&TranscriptionEntry>)
        ensures
            match r {
                Some(e) => loose_lookup(self.lookup_model(), graphemes@) == Some(e@),
                None => loose_lookup(self.lookup_model(), graphemes@) is None,
            },
    ;
}

/// One named dictionary: an immutable mapping from grapheme (case-sensitive,
/// as authored) to transcription entry. The name is diagnostic only.
#[derive(Debug)]
pub struct TranscriptionDict {
    pub dict_name: String,
    pub entries: Vec<(String, TranscriptionEntry)>,
}

impl View for TranscriptionDict {
    type V = Seq<(Seq<char>, EntryModel)>;

    open spec fn view(&self) -> Seq<(Seq<char>, EntryModel)> {
        Seq::new(self.entries@.len(), |i: int| (self.entries@[i].0@, self.entries@[i].1@))
    }
}

impl TranscriptionLookup for TranscriptionDict {
    open spec fn lookup_model(&self) -> Seq<(Seq<char>, EntryModel)> {
        self@
    }

    fn lookup_exact(&self, graphemes: &str) -> (r: Option<&TranscriptionEntry>) {
        let n = self.entries.len();
        let mut idx: usize = 0;
        proof {
            assert(self@.skip(0) =~= self@);
        }
        while idx < n
            invariant
                n == self.entries.len(),
                idx <= n,
                assoc_lookup(self@, graphemes@) == assoc_lookup(
                    self@.skip(idx as int),
                    graphemes@,
                ),
            decreases n - idx,
        {
            proof {
                assert(self@.skip(idx as int)[0] == self@[idx as int]);
                assert(self@.skip(idx as int).drop_first() =~= self@.skip(idx as int + 1));
            }
            if str_eq(self.entries[idx].0.as_str(), graphemes) {
                return Some(&self.entries[idx].1);
            }
            idx += 1;
        }
        None
    }

    fn lookup_loose(&self, graphemes: &str) -> (r: Option<&TranscriptionEntry>) {
        let exact = self.lookup_exact(graphemes);
        if exact.is_some() {
            return exact;
        }
        let lowered = lowercase(graphemes);
        self.lookup_exact(lowered.as_str())
    }
}

/// The pairs of a sequence of dictionaries, joined in priority order.
pub open spec fn store_model(dicts: Seq<TranscriptionDict>) -> Seq<(Seq<char>, EntryModel)>
    decreases dicts.len(),
{
    if dicts.len() == 0 {
        Seq::empty()
    } else {
        dicts[0]@ + store_model(dicts.drop_first())
    }
}

/// The ordered, immutable collection of dictionaries used for English
/// transcription lookup; earlier dictionaries have higher priority.
#[derive(Debug)]
pub struct TranscriptionStoreEN {
    pub dicts: Vec<TranscriptionDict>,
}

impl View for TranscriptionStoreEN {
    type V = Seq<(Seq<char>, EntryModel)>;

    open spec fn view(&self) -> Seq<(Seq<char>, EntryModel)> {
        store_model(self.dicts@)
    }
}

impl TranscriptionLookup for TranscriptionStoreEN {
    open spec fn lookup_model(&self) -> Seq<(Seq<char>, EntryModel)> {
        self@
    }

    fn lookup_exact(&self, graphemes: &str) -> (r: Option<&TranscriptionEntry>) {
        let n = self.dicts.len();
        let mut d: usize = 0;
        proof {
            assert(self.dicts@.skip(0) =~= self.dicts@);
        }
        while d < n
            invariant
                n == self.dicts.len(),
                d <= n,
                assoc_lookup(self@, graphemes@) == assoc_lookup(
                    store_model(self.dicts@.skip(d as int)),
                    graphemes@,
                ),
            decreases n - d,
        {
            proof {
                assert(self.dicts@.skip(d as int)[0] == self.dicts@[d as int]);
                assert(self.dicts@.skip(d as int).drop_first() =~= self.dicts@.skip(
                    d as int + 1,
                ));
                lemma_assoc_lookup_concat(
                    self.dicts@[d as int]@,
                    store_model(self.dicts@.skip(d as int + 1)),
                    graphemes@,
                );
            }
            let found = self.dicts[d].lookup_exact(graphemes);
            if found.is_some() {
                return found;
            }
            d += 1;
        }
        None
    }

    fn lookup_loose(&self, graphemes: &str) -> (r: Option<&TranscriptionEntry>) {
        let exact = self.lookup_exact(graphemes);
        if exact.is_some() {
            return exact;
        }
        let lowered = lowercase(graphemes);
        self.lookup_exact(lowered.as_str())
    }
}

} // verus!
