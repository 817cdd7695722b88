//! Text normalization: Unicode Normalization Form KC, followed by a fixed
//! substitution of a small set of non-ASCII characters with their closest
//! ASCII counterparts, for better compatibility with the lookup dictionaries.

use vstd::prelude::*;
use vstd::string::*;

verus! {

/// Whether the character is ASCII (code point below 0x80).
pub open spec fn is_ascii_char(c: char) -> bool {
    (c as u32) < 0x80
}

/// Whether every character is ASCII.
pub open spec fn ascii_seq(s: Seq<char>) -> bool {
    forall|k: int| 0 <= k < s.len() ==> is_ascii_char(#[trigger] s[k])
}

/// The Unicode NFKC normalization of a character sequence, as computed by
/// the NFKC normalizer of the `tokenizers` crate.
pub uninterp spec fn nfkc_of(s: Seq<char>) -> Seq<char>;

/// Relies on the `NFKC` normalizer of `tokenizers`: it rewrites the string to
/// Unicode Normalization Form KC. The result depends on the characters alone;
/// text made of ASCII characters only is left unchanged by every Unicode
/// normalization form; and the normalization forms are idempotent, so the
/// result is itself in NFKC and a second pass leaves it unchanged. Its
/// `normalize` applies `nfkc` and never reports an error, so there is no
/// failure to propagate.
#[verifier::external_body]
fn nfkc_normalize(text: &str) -> (r: String)
    ensures
        r@ == nfkc_of(text@),
        ascii_seq(text@) ==> r@ == text@,
        nfkc_of(r@) == r@,
{
    let mut normalized = tokenizers::NormalizedString::from(text);
    let _ = tokenizers::Normalizer::normalize(&tokenizers::normalizers::NFKC, &mut normalized);
    normalized.get().to_owned()
}

/// Relies on `String::push` (std): appends the character to the end of the
/// string.
#[verifier::external_body]
pub(crate) fn push_char(s: &mut String, c: char)
    ensures
        final(s)@ == old(s)@.push(c),
{
    s.push(c);
}

/// The fixed substitution table: the ASCII replacement for the character, or
/// `None` for characters that pass through unchanged. It maps typographic
/// quotation marks, dashes, and the horizontal ellipsis; every replacement is
/// ASCII and no replacement character is itself in the table.
pub open spec fn subst_char(c: char) -> Option<Seq<char>> {
    if c == '\u{2018}' || c == '\u{2019}' || c == '\u{201a}' || c == '\u{201b}'
        || c == '\u{2039}' || c == '\u{203a}' || c == '\u{00b4}' {
        Some("'"@)
    } else if c == '\u{201c}' || c == '\u{201d}' || c == '\u{201e}' || c == '\u{00ab}'
        || c == '\u{00bb}' {
        Some("\""@)
    } else if c == '\u{2010}' || c == '\u{2011}' || c == '\u{2012}' || c == '\u{2013}'
        || c == '\u{2014}' || c == '\u{2015}' || c == '\u{2212}' {
        Some("-"@)
    } else if c == '\u{2026}' {
        Some("..."@)
    } else {
        None
    }
}

fn subst_char_exec(c: char) -> (r: Option<&'static str>)
    ensures
        match r {
            Some(s) => subst_char(c) == Some(s@),
            None => subst_char(c) is None,
        },
{
    if c == '\u{2018}' || c == '\u{2019}' || c == '\u{201a}' || c == '\u{201b}'
        || c == '\u{2039}' || c == '\u{203a}' || c == '\u{00b4}' {
        Some("'")
    } else if c == '\u{201c}' || c == '\u{201d}' || c == '\u{201e}' || c == '\u{00ab}'
        || c == '\u{00bb}' {
        Some("\"")
    } else if c == '\u{2010}' || c == '\u{2011}' || c == '\u{2012}' || c == '\u{2013}'
        || c == '\u{2014}' || c == '\u{2015}' || c == '\u{2212}' {
        Some("-")
    } else if c == '\u{2026}' {
        Some("...")
    } else {
        None
    }
}

/// The substitution pass over a whole sequence: each character is replaced by
/// its table entry, or kept as it is.
pub open spec fn subst_of(s: Seq<char>) -> Seq<char>
    decreases s.len(),
{
    if s.len() == 0 {
        Seq::empty()
    } else {
        (match subst_char(s[0]) {
            Some(r) => r,
            None => seq![s[0]],
        }) + subst_of(s.drop_first())
    }
}

/// What `normalize` computes: NFKC first, then the substitution pass.
pub open spec fn normalize_spec(s: Seq<char>) -> Seq<char> {
    subst_of(nfkc_of(s))
}

pub proof fn lemma_subst_of_concat(a: Seq<char>, b: Seq<char>)
    ensures
        subst_of(a + b) == subst_of(a) + subst_of(b),
    decreases a.len(),
{
    if a.len() == 0 {
        assert(a + b =~= b);
        assert(subst_of(a) + subst_of(b) =~= subst_of(b));
    } else {
        assert((a + b)[0] == a[0]);
        assert((a + b).drop_first() =~= a.drop_first() + b);
        lemma_subst_of_concat(a.drop_first(), b);
        assert(subst_of(a + b) =~= subst_of(a) + subst_of(b));
    }
}

/// The substitution pass leaves ASCII text unchanged: every table key is a
/// non-ASCII character.
pub proof fn lemma_subst_ascii_identity(s: Seq<char>)
    requires
        ascii_seq(s),
    ensures
        subst_of(s) == s,
    decreases s.len(),
{
    if s.len() > 0 {
        assert((s[0] as u32) < 0x80);
        lemma_subst_ascii_identity(s.drop_first());
        assert(seq![s[0]] + s.drop_first() =~= s);
    }
}

/// The output of the substitution pass is a fixpoint of the pass: replacement
/// strings are ASCII, and characters kept once are kept again.
pub proof fn lemma_subst_fixpoint(s: Seq<char>)
    ensures
        subst_of(subst_of(s)) == subst_of(s),
    decreases s.len(),
{
    if s.len() > 0 {
        let head = match subst_char(s[0]) {
            Some(r) => r,
            None => seq![s[0]],
        };
        lemma_subst_of_concat(head, subst_of(s.drop_first()));
        lemma_subst_fixpoint(s.drop_first());
        match subst_char(s[0]) {
            Some(r) => {
                reveal_strlit("'");
                reveal_strlit("\"");
                reveal_strlit("-");
                reveal_strlit("...");
                assert(ascii_seq(r));
                lemma_subst_ascii_identity(r);
            },
            None => {
                assert(subst_of(seq![s[0]]) =~= seq![s[0]] + subst_of(
                    seq![s[0]].drop_first(),
                ));
                assert(seq![s[0]].drop_first() =~= Seq::<char>::empty());
                assert(subst_of(seq![s[0]]) =~= seq![s[0]]);
            },
        }
    }
}

/// Law: normalization is idempotent. The hypothesis states that a Unicode
/// NFKC pass leaves the first pass's output unchanged. NFKC's own output is
/// stable under NFKC (the trusted contract of the NFKC step says so), but the
/// substitution pass could in principle disturb that stability, and no
/// trusted fact says it does not; the substitution pass itself is proved to
/// be a fixpoint of itself above. `normalize` carries the same law as the
/// conditional clauses of its contract.
pub proof fn lemma_normalize_idempotent(t: Seq<char>)
    requires
        nfkc_of(subst_of(nfkc_of(t))) == subst_of(nfkc_of(t)),
    ensures
        normalize_spec(normalize_spec(t)) == normalize_spec(t),
{
    lemma_subst_fixpoint(nfkc_of(t));
}

/// Canonicalize the text: apply Unicode NFKC, then replace each character in
/// the fixed substitution table with its ASCII counterpart, leaving every
/// other character untouched. ASCII text comes back unchanged.
///
/// The last two clauses are the idempotence law at this function: whenever
/// the substitution pass changes nothing, the result is NFKC-stable, and
/// whenever the result is NFKC-stable, normalizing it again returns it
/// unchanged.
pub fn normalize(text: &str) -> (r: String)
    ensures
        r@ == normalize_spec(text@),
        ascii_seq(text@) ==> r@ == text@,
        subst_of(nfkc_of(text@)) == nfkc_of(text@) ==> nfkc_of(r@) == r@,
        nfkc_of(r@) == r@ ==> normalize_spec(r@) == r@,
{
    let nfkc = nfkc_normalize(text);
    let n = nfkc.as_str().unicode_len();
    let mut out = String::new();
    let mut i: usize = 0;
    proof {
        assert(nfkc@.skip(0) =~= nfkc@);
        assert(out@ + subst_of(nfkc@.skip(0)) =~= subst_of(nfkc@));
    }
    while i < n
        invariant
            n == nfkc@.len(),
            i <= n,
            out@ + subst_of(nfkc@.skip(i as int)) == subst_of(nfkc@),
        decreases n - i,
    {
        let c = nfkc.as_str().get_char(i);
        proof {
            assert(nfkc@.skip(i as int)[0] == nfkc@[i as int]);
            assert(nfkc@.skip(i as int).drop_first() =~= nfkc@.skip(i as int + 1));
        }
        match subst_char_exec(c) {
            Some(rep) => {
                out.append(rep);
                proof {
                    assert(out@ + subst_of(nfkc@.skip(i as int + 1)) =~= subst_of(nfkc@));
                }
            },
            None => {
                push_char(&mut out, c);
                proof {
                    assert(out@ =~= (out@.drop_last() + seq![c]));
                    assert(out@ + subst_of(nfkc@.skip(i as int + 1)) =~= subst_of(nfkc@));
                }
            },
        }
        i += 1;
    }
    proof {
        assert(nfkc@.skip(n as int) =~= Seq::<char>::empty());
        assert(out@ =~= subst_of(nfkc@));
        lemma_subst_fixpoint(nfkc@);
        if ascii_seq(text@) {
            lemma_subst_ascii_identity(text@);
        }
    }
    out
}

} // verus!
