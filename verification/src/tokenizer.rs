//! Lexical analysis: a maximal-munch scanner that partitions text into typed,
//! ordered token slices covering the whole input.
//!
//! The rules, in declared priority order (used to break ties between matches
//! of equal length; otherwise the longest match at the current position wins):
//! word, abbreviated word, digit sequence, decimal number, sentence delimiter,
//! special character, whitespace.

use vstd::prelude::*;
use vstd::string::*;
use vstd::utf8::encode_utf8;
use core::ops::Range;

verus! {

// ---------------------------------------------------------------------------
// Character classes
// ---------------------------------------------------------------------------

/// The Unicode `Alphabetic` characters, as decided by `char::is_alphabetic`.
pub uninterp spec fn is_alphabetic_char(c: char) -> bool;

/// Relies on `char::is_alphabetic` (std): whether the character has the
/// Unicode `Alphabetic` property. The result depends on the character alone.
#[verifier::external_body]
fn alphabetic(c: char) -> (r: bool)
    ensures
        r == is_alphabetic_char(c),
{
    c.is_alphabetic()
}

/// The characters with the Unicode `Connector_Punctuation` category, written
/// out: the underscore and its siblings.
pub open spec fn is_connector_punctuation_char(c: char) -> bool {
    ||| c == '_'
    ||| c as u32 == 0x203f || c as u32 == 0x2040 || c as u32 == 0x2054
    ||| c as u32 == 0xfe33 || c as u32 == 0xfe34
    ||| c as u32 == 0xfe4d || c as u32 == 0xfe4e || c as u32 == 0xfe4f
    ||| c as u32 == 0xff3f
}

fn connector_punctuation_char(c: char) -> (r: bool)
    ensures
        r == is_connector_punctuation_char(c),
{
    c == '_'
        || c as u32 == 0x203f || c as u32 == 0x2040 || c as u32 == 0x2054
        || c as u32 == 0xfe33 || c as u32 == 0xfe34
        || c as u32 == 0xfe4d || c as u32 == 0xfe4e || c as u32 == 0xfe4f
        || c as u32 == 0xff3f
}

/// The two join controls: the zero-width non-joiner and the zero-width
/// joiner.
pub open spec fn is_join_control_char(c: char) -> bool {
    c as u32 == 0x200c || c as u32 == 0x200d
}

fn join_control_char(c: char) -> (r: bool)
    ensures
        r == is_join_control_char(c),
{
    c as u32 == 0x200c || c as u32 == 0x200d
}

/// Word characters, the identifier-like alphabet: letters, connector
/// punctuation, and the join controls. Decimal digits are not word
/// characters, so a word never absorbs a digit. Combining marks are not word
/// characters here: a mark that survives normalization ends the word instead
/// of extending it.
pub open spec fn is_word_char(c: char) -> bool {
    is_alphabetic_char(c) || is_connector_punctuation_char(c) || is_join_control_char(c)
}

fn word_char(c: char) -> (r: bool)
    ensures
        r == is_word_char(c),
{
    alphabetic(c) || connector_punctuation_char(c) || join_control_char(c)
}

/// Decimal digits.
pub open spec fn is_digit_char(c: char) -> bool {
    '0' as u32 <= c as u32 && c as u32 <= '9' as u32
}

fn digit_char(c: char) -> (r: bool)
    ensures
        r == is_digit_char(c),
{
    '0' as u32 <= c as u32 && c as u32 <= '9' as u32
}

/// Sentence delimiters: the closed set `.`, `!`, `?`.
pub open spec fn is_sentence_delim_char(c: char) -> bool {
    c == '.' || c == '!' || c == '?'
}

fn sentence_delim_char(c: char) -> (r: bool)
    ensures
        r == is_sentence_delim_char(c),
{
    c == '.' || c == '!' || c == '?'
}

/// The fixed punctuation set recognized as single `Special` tokens.
pub open spec fn is_special_char(c: char) -> bool {
    ||| c == '$' || c == '%' || c == '&' || c == '=' || c == '*' || c == '+'
    ||| c == ';' || c == '<' || c == '>' || c == '|' || c == '^' || c == '"'
    ||| c == '\'' || c == '~' || c == ':' || c == '/' || c == '\\' || c == '#'
    ||| c == ',' || c == '(' || c == ')' || c == '[' || c == ']' || c == '{'
    ||| c == '}' || c == '-'
}

fn special_char(c: char) -> (r: bool)
    ensures
        r == is_special_char(c),
{
    c == '$' || c == '%' || c == '&' || c == '=' || c == '*' || c == '+'
        || c == ';' || c == '<' || c == '>' || c == '|' || c == '^' || c == '"'
        || c == '\'' || c == '~' || c == ':' || c == '/' || c == '\\' || c == '#'
        || c == ',' || c == '(' || c == ')' || c == '[' || c == ']' || c == '{'
        || c == '}' || c == '-'
}

/// The characters with the Unicode `White_Space` property, written out.
pub open spec fn is_whitespace_char(c: char) -> bool {
    ||| 0x09 <= c as u32 && c as u32 <= 0x0d
    ||| c as u32 == 0x20 || c as u32 == 0x85 || c as u32 == 0xa0
    ||| c as u32 == 0x1680
    ||| 0x2000 <= c as u32 && c as u32 <= 0x200a
    ||| c as u32 == 0x2028 || c as u32 == 0x2029 || c as u32 == 0x202f
    ||| c as u32 == 0x205f || c as u32 == 0x3000
}

fn whitespace_char(c: char) -> (r: bool)
    ensures
        r == is_whitespace_char(c),
{
    (0x09 <= c as u32 && c as u32 <= 0x0d)
        || c as u32 == 0x20 || c as u32 == 0x85 || c as u32 == 0xa0
        || c as u32 == 0x1680
        || (0x2000 <= c as u32 && c as u32 <= 0x200a)
        || c as u32 == 0x2028 || c as u32 == 0x2029 || c as u32 == 0x202f
        || c as u32 == 0x205f || c as u32 == 0x3000
}

// ---------------------------------------------------------------------------
// Token kinds and token contexts
// ---------------------------------------------------------------------------

/// The closed set of token kinds the scanner produces.
#[derive(Debug, PartialEq, Eq, Structural, Clone, Copy)]
pub enum Token {
    /// One or more word characters, optionally extended by groups of one
    /// apostrophe immediately followed by one or more word characters, so
    /// that contractions stay in one token. An apostrophe not immediately
    /// followed by a word character is never absorbed.
    Word,
    /// One of the titles `dr`, `mr`, `ms` (case-insensitive) immediately
    /// followed by a period.
    AbbreviatedWord,
    /// One or more decimal digits.
    DigitSequence,
    /// Digits, a period, and at least one more digit.
    DecimalNumber,
    /// One or more sentence delimiter characters.
    SentenceDelimiter,
    /// A single character from the fixed punctuation set.
    Special,
    /// One or more whitespace characters.
    Whitespace,
}

/// A token kind together with the exact slice it covers and the range of
/// byte offsets of that slice in the UTF-8 encoding of the scanned text.
#[derive(Debug)]
pub struct TokenContext<'a> {
    pub token: Token,
    pub slice: &'a str,
    pub span: Range<usize>,
}

/// The tokenizer found a position no rule covers; `remainder` is the text
/// from that position to the end.
#[derive(Debug)]
pub struct LexError {
    pub remainder: String,
}

// ---------------------------------------------------------------------------
// The scanner's specification
// ---------------------------------------------------------------------------

/// End of the maximal run of characters satisfying `pred`, starting at `i`.
pub open spec fn run_end(s: Seq<char>, i: int, pred: spec_fn(char) -> bool) -> int
    decreases s.len() - i,
{
    if 0 <= i && i < s.len() && pred(s[i]) {
        run_end(s, i + 1, pred)
    } else {
        i
    }
}

pub open spec fn digit_pred() -> spec_fn(char) -> bool {
    |c: char| is_digit_char(c)
}

pub open spec fn delim_pred() -> spec_fn(char) -> bool {
    |c: char| is_sentence_delim_char(c)
}

pub open spec fn ws_pred() -> spec_fn(char) -> bool {
    |c: char| is_whitespace_char(c)
}

/// End of a word token that continues at `i`: word characters are absorbed,
/// and an apostrophe is absorbed exactly when a word character follows it
/// immediately.
pub open spec fn word_end_from(s: Seq<char>, i: int) -> int
    decreases s.len() - i,
{
    if i < 0 || i >= s.len() {
        i
    } else if is_word_char(s[i]) {
        word_end_from(s, i + 1)
    } else if s[i] == '\'' && i + 1 < s.len() && is_word_char(s[i + 1]) {
        word_end_from(s, i + 2)
    } else {
        i
    }
}

/// Whether one of the three titles, in any letter case, followed by a
/// period, stands at `i`.
pub open spec fn is_abbrev_at(s: Seq<char>, i: int) -> bool {
    &&& 0 <= i && i + 3 <= s.len()
    &&& s[i + 2] == '.'
    &&& {
        let c0 = s[i];
        let c1 = s[i + 1];
        ||| ((c0 == 'd' || c0 == 'D') && (c1 == 'r' || c1 == 'R'))
        ||| ((c0 == 'm' || c0 == 'M') && (c1 == 'r' || c1 == 'R'))
        ||| ((c0 == 'm' || c0 == 'M') && (c1 == 's' || c1 == 'S'))
    }
}

/// The token the scanner emits at position `i`, with the position after it:
/// the longest match among the rules that apply at `i`, ties broken by the
/// declared priority order. `None` when no rule covers the character at `i`.
pub open spec fn token_at(s: Seq<char>, i: int) -> Option<(Token, int)>
    recommends
        0 <= i < s.len(),
{
    let c = s[i];
    if is_word_char(c) {
        let we = word_end_from(s, i);
        if is_abbrev_at(s, i) && we < i + 3 {
            Some((Token::AbbreviatedWord, i + 3))
        } else {
            Some((Token::Word, we))
        }
    } else if is_digit_char(c) {
        let de = run_end(s, i, digit_pred());
        if de < s.len() && s[de] == '.' && de + 1 < s.len() && is_digit_char(s[de + 1]) {
            Some((Token::DecimalNumber, run_end(s, de + 1, digit_pred())))
        } else {
            Some((Token::DigitSequence, de))
        }
    } else if is_sentence_delim_char(c) {
        Some((Token::SentenceDelimiter, run_end(s, i, delim_pred())))
    } else if is_special_char(c) {
        Some((Token::Special, i + 1))
    } else if is_whitespace_char(c) {
        Some((Token::Whitespace, run_end(s, i, ws_pred())))
    } else {
        None
    }
}

/// The result of scanning from a position to the end of the text: either the
/// emitted tokens, each a kind with the start and end of its slice, or the
/// first position no rule covers.
pub enum ScanResult {
    Tokens(Seq<(Token, int, int)>),
    Fail(int),
}

/// The full scan of `s` from position `i`, left to right, emitting the token
/// of `token_at` at each step.
pub open spec fn scan_from(s: Seq<char>, i: int) -> ScanResult
    decreases s.len() - i,
    via scan_from_decreases
{
    if i < 0 || i >= s.len() {
        ScanResult::Tokens(Seq::empty())
    } else {
        match token_at(s, i) {
            None => ScanResult::Fail(i),
            Some(tj) => match scan_from(s, tj.1) {
                ScanResult::Fail(p) => ScanResult::Fail(p),
                ScanResult::Tokens(rest) => ScanResult::Tokens(
                    seq![(tj.0, i, tj.1)] + rest,
                ),
            },
        }
    }
}

#[via_fn]
proof fn scan_from_decreases(s: Seq<char>, i: int) {
    if 0 <= i && i < s.len() {
        lemma_token_at_range(s, i);
    }
}

// ---------------------------------------------------------------------------
// Lemmas about the specification
// ---------------------------------------------------------------------------

pub proof fn lemma_run_end(s: Seq<char>, i: int, pred: spec_fn(char) -> bool)
    requires
        i <= s.len(),
    ensures
        i <= run_end(s, i, pred) <= s.len(),
        forall|k: int| i <= k < run_end(s, i, pred) ==> pred(#[trigger] s[k]),
        run_end(s, i, pred) == s.len() || !(0 <= run_end(s, i, pred) < s.len()
            && pred(s[run_end(s, i, pred)])),
    decreases s.len() - i,
{
    if 0 <= i && i < s.len() && pred(s[i]) {
        lemma_run_end(s, i + 1, pred);
    }
}

pub proof fn lemma_word_end_from(s: Seq<char>, i: int)
    requires
        i <= s.len(),
    ensures
        i <= word_end_from(s, i) <= s.len(),
    decreases s.len() - i,
{
    if 0 <= i && i < s.len() {
        if is_word_char(s[i]) {
            lemma_word_end_from(s, i + 1);
        } else if s[i] == '\'' && i + 1 < s.len() && is_word_char(s[i + 1]) {
            lemma_word_end_from(s, i + 2);
        }
    }
}

/// A token always covers at least one character and never runs past the end.
pub proof fn lemma_token_at_range(s: Seq<char>, i: int)
    requires
        0 <= i < s.len(),
    ensures
        token_at(s, i) matches Some(tj) ==> i < tj.1 <= s.len(),
{
    let c = s[i];
    if is_word_char(c) {
        lemma_word_end_from(s, i + 1);
    } else if is_digit_char(c) {
        lemma_run_end(s, i, digit_pred());
        let de = run_end(s, i, digit_pred());
        if de < s.len() && s[de] == '.' && de + 1 < s.len() && is_digit_char(s[de + 1]) {
            lemma_run_end(s, de + 1, digit_pred());
        }
    } else if is_sentence_delim_char(c) {
        lemma_run_end(s, i, delim_pred());
    } else if is_special_char(c) {
    } else if is_whitespace_char(c) {
        lemma_run_end(s, i, ws_pred());
    }
}

/// The slices named by a token model, concatenated in order.
pub open spec fn concat_slices(s: Seq<char>, m: Seq<(Token, int, int)>) -> Seq<char>
    decreases m.len(),
{
    if m.len() == 0 {
        Seq::empty()
    } else {
        s.subrange(m[0].1, m[0].2) + concat_slices(s, m.drop_first())
    }
}

/// Coverage: a successful scan partitions the scanned suffix exactly, with
/// no gaps and no overlaps, so its slices concatenate back to that suffix.
pub proof fn lemma_scan_covers(s: Seq<char>, i: int, m: Seq<(Token, int, int)>)
    requires
        0 <= i <= s.len(),
        scan_from(s, i) == ScanResult::Tokens(m),
    ensures
        concat_slices(s, m) == s.subrange(i, s.len() as int),
    decreases s.len() - i,
{
    if i >= s.len() {
        assert(m =~= Seq::<(Token, int, int)>::empty());
        assert(concat_slices(s, m) =~= s.subrange(i, s.len() as int));
    } else {
        lemma_token_at_range(s, i);
        let tj = token_at(s, i)->Some_0;
        let rest = scan_from(s, tj.1)->Tokens_0;
        lemma_scan_covers(s, tj.1, rest);
        assert(m.drop_first() =~= rest);
        assert(concat_slices(s, m) =~= s.subrange(i, s.len() as int));
    }
}

// ---------------------------------------------------------------------------
// The executable scanner
// ---------------------------------------------------------------------------

fn word_end_exec(text: &str, i: usize, n: usize) -> (r: usize)
    requires
        n == text@.len(),
        i <= n,
    ensures
        r as int == word_end_from(text@, i as int),
        i <= r <= n,
    decreases n - i,
{
    proof {
        lemma_word_end_from(text@, i as int);
    }
    if i >= n {
        return i;
    }
    let c = text.get_char(i);
    if word_char(c) {
        return word_end_exec(text, i + 1, n);
    }
    if c == '\'' && i + 1 < n {
        let d = text.get_char(i + 1);
        if word_char(d) {
            return word_end_exec(text, i + 2, n);
        }
    }
    i
}

fn digit_run_exec(text: &str, i: usize, n: usize) -> (r: usize)
    requires
        n == text@.len(),
        i <= n,
    ensures
        r as int == run_end(text@, i as int, digit_pred()),
        i <= r <= n,
    decreases n - i,
{
    if i < n {
        let c = text.get_char(i);
        if digit_char(c) {
            return digit_run_exec(text, i + 1, n);
        }
    }
    i
}

fn delim_run_exec(text: &str, i: usize, n: usize) -> (r: usize)
    requires
        n == text@.len(),
        i <= n,
    ensures
        r as int == run_end(text@, i as int, delim_pred()),
        i <= r <= n,
    decreases n - i,
{
    if i < n {
        let c = text.get_char(i);
        if sentence_delim_char(c) {
            return delim_run_exec(text, i + 1, n);
        }
    }
    i
}

fn ws_run_exec(text: &str, i: usize, n: usize) -> (r: usize)
    requires
        n == text@.len(),
        i <= n,
    ensures
        r as int == run_end(text@, i as int, ws_pred()),
        i <= r <= n,
    decreases n - i,
{
    if i < n {
        let c = text.get_char(i);
        if whitespace_char(c) {
            return ws_run_exec(text, i + 1, n);
        }
    }
    i
}

fn abbrev_at_exec(text: &str, i: usize, n: usize) -> (r: bool)
    requires
        n == text@.len(),
        i < n,
    ensures
        r == is_abbrev_at(text@, i as int),
{
    if n - i < 3 {
        return false;
    }
    let c0 = text.get_char(i);
    let c1 = text.get_char(i + 1);
    let c2 = text.get_char(i + 2);
    c2 == '.' && (((c0 == 'd' || c0 == 'D') && (c1 == 'r' || c1 == 'R'))
        || ((c0 == 'm' || c0 == 'M') && (c1 == 'r' || c1 == 'R'))
        || ((c0 == 'm' || c0 == 'M') && (c1 == 's' || c1 == 'S')))
}

/// One step of the scanner: the token at position `i`, per `token_at`.
fn next_token(text: &str, i: usize, n: usize) -> (r: Option<(Token, usize)>)
    requires
        n == text@.len(),
        i < n,
    ensures
        match r {
            Some(tj) => {
                &&& token_at(text@, i as int) == Some((tj.0, tj.1 as int))
                &&& i < tj.1 <= n
            },
            None => token_at(text@, i as int) is None,
        },
{
    proof {
        lemma_token_at_range(text@, i as int);
    }
    let c = text.get_char(i);
    if word_char(c) {
        let we = word_end_exec(text, i, n);
        if abbrev_at_exec(text, i, n) && we < i + 3 {
            Some((Token::AbbreviatedWord, i + 3))
        } else {
            Some((Token::Word, we))
        }
    } else if digit_char(c) {
        let de = digit_run_exec(text, i, n);
        if de < n && text.get_char(de) == '.' && de + 1 < n && digit_char(text.get_char(de + 1)) {
            let de2 = digit_run_exec(text, de + 1, n);
            Some((Token::DecimalNumber, de2))
        } else {
            Some((Token::DigitSequence, de))
        }
    } else if sentence_delim_char(c) {
        Some((Token::SentenceDelimiter, delim_run_exec(text, i, n)))
    } else if special_char(c) {
        Some((Token::Special, i + 1))
    } else if whitespace_char(c) {
        Some((Token::Whitespace, ws_run_exec(text, i, n)))
    } else {
        None
    }
}

/// The byte offset of character position `i` of `s` in its UTF-8 encoding.
pub open spec fn byte_off(s: Seq<char>, i: int) -> int
    recommends
        0 <= i <= s.len(),
{
    encode_utf8(s.subrange(0, i)).len() as int
}

pub proof fn lemma_encode_utf8_concat(a: Seq<char>, b: Seq<char>)
    ensures
        encode_utf8(a + b) == encode_utf8(a) + encode_utf8(b),
    decreases a.len(),
{
    if a.len() == 0 {
        assert(a + b =~= b);
        assert(encode_utf8(a) + encode_utf8(b) =~= encode_utf8(b));
    } else {
        assert((a + b)[0] == a[0]);
        assert((a + b).drop_first() =~= a.drop_first() + b);
        lemma_encode_utf8_concat(a.drop_first(), b);
        assert(encode_utf8(a + b) =~= encode_utf8(a) + encode_utf8(b));
    }
}

/// Byte offsets grow by the encoded length of the characters in between, and
/// never run past the text's total byte length.
pub proof fn lemma_byte_off_step(s: Seq<char>, i: int, j: int)
    requires
        0 <= i <= j <= s.len(),
    ensures
        byte_off(s, j) == byte_off(s, i) + encode_utf8(s.subrange(i, j)).len(),
        byte_off(s, j) <= encode_utf8(s).len(),
{
    lemma_encode_utf8_concat(s.subrange(0, i), s.subrange(i, j));
    assert(s.subrange(0, i) + s.subrange(i, j) =~= s.subrange(0, j));
    lemma_encode_utf8_concat(s.subrange(0, j), s.subrange(j, s.len() as int));
    assert(s.subrange(0, j) + s.subrange(j, s.len() as int) =~= s);
}

/// How a vector of token contexts realizes a scan model over the text `s`:
/// kind for kind, slice for slice, span for span.
pub open spec fn tokens_match<'a>(
    tcs: Seq<TokenContext<'a>>,
    m: Seq<(Token, int, int)>,
    s: Seq<char>,
) -> bool {
    &&& tcs.len() == m.len()
    &&& forall|k: int| 0 <= k < m.len() ==> {
        &&& (#[trigger] tcs[k]).token == m[k].0
        &&& tcs[k].span.start as int == byte_off(s, m[k].1)
        &&& tcs[k].span.end as int == byte_off(s, m[k].2)
        &&& tcs[k].slice@ == s.subrange(m[k].1, m[k].2)
    }
}

/// Carries a scan result past a prefix of already-emitted tokens.
pub open spec fn scan_prepend(prefix: Seq<(Token, int, int)>, r: ScanResult) -> ScanResult {
    match r {
        ScanResult::Fail(p) => ScanResult::Fail(p),
        ScanResult::Tokens(ts) => ScanResult::Tokens(prefix + ts),
    }
}

proof fn lemma_scan_prepend_step(
    prefix: Seq<(Token, int, int)>,
    t3: (Token, int, int),
    r: ScanResult,
)
    ensures
        scan_prepend(prefix, scan_prepend(seq![t3], r)) == scan_prepend(prefix.push(t3), r),
{
    match r {
        ScanResult::Tokens(ts) => {
            assert(prefix + (seq![t3] + ts) =~= prefix.push(t3) + ts);
        },
        ScanResult::Fail(_) => {},
    }
}

pub struct EnTokenizer;

impl EnTokenizer {
    /// Scan the whole text into tokens, left to right, longest match first.
    ///
    /// On success the tokens realize the scan model of the text, so their
    /// slices, concatenated in order, reproduce the text exactly. When some
    /// position is covered by no rule, the error carries the text from the
    /// first such position on.
    pub fn tokenize<'a>(text: &'a str) -> (r: Result<Vec<TokenContext<'a>>, LexError>)
        ensures
            match r {
                Ok(toks) => scan_from(text@, 0) matches ScanResult::Tokens(m)
                    && tokens_match(toks@, m, text@),
                Err(e) => scan_from(text@, 0) matches ScanResult::Fail(p)
                    && e.remainder@ == text@.subrange(p, text@.len() as int),
            },
    {
        let n = text.unicode_len();
        let nb = text.as_bytes().len();
        proof {
            assert(nb as int == encode_utf8(text@).len());
        }
        let mut toks: Vec<TokenContext<'a>> = Vec::new();
        let mut i: usize = 0;
        let mut bpos: usize = 0;
        let ghost mut g: Seq<(Token, int, int)> = Seq::empty();
        proof {
            assert(text@.subrange(0, 0) =~= Seq::<char>::empty());
            assert(encode_utf8(Seq::<char>::empty()) =~= Seq::<u8>::empty());
            assert(g + scan_from(text@, 0)->Tokens_0 =~= scan_from(text@, 0)->Tokens_0);
            assert(scan_prepend(g, scan_from(text@, 0)) == scan_from(text@, 0)) by {
                match scan_from(text@, 0) {
                    ScanResult::Tokens(ts) => {
                        assert(g + ts =~= ts);
                    },
                    ScanResult::Fail(_) => {},
                }
            }
        }
        while i < n
            invariant
                n == text@.len(),
                nb as int == encode_utf8(text@).len(),
                i <= n,
                bpos as int == byte_off(text@, i as int),
                g.len() == toks@.len(),
                tokens_match(toks@, g, text@),
                scan_from(text@, 0) == scan_prepend(g, scan_from(text@, i as int)),
            decreases n - i,
        {
            match next_token(text, i, n) {
                Some((t, j)) => {
                    let slice = text.substring_char(i, j);
                    proof {
                        lemma_byte_off_step(text@, i as int, j as int);
                    }
                    let slice_bytes = slice.as_bytes().len();
                    proof {
                        assert(slice_bytes as int == encode_utf8(slice@).len());
                        assert(bpos + slice_bytes <= nb);
                    }
                    let bend = bpos + slice_bytes;
                    let tc = TokenContext { token: t, slice, span: bpos..bend };
                    toks.push(tc);
                    proof {
                        lemma_scan_prepend_step(g, (t, i as int, j as int), scan_from(text@, j as int));
                        g = g.push((t, i as int, j as int));
                    }
                    i = j;
                    bpos = bend;
                },
                None => {
                    let rem = text.substring_char(i, n);
                    return Err(LexError { remainder: rem.to_owned() });
                },
            }
        }
        proof {
            assert(scan_from(text@, i as int) == ScanResult::Tokens(Seq::<(Token, int, int)>::empty()));
            assert(g + Seq::<(Token, int, int)>::empty() =~= g);
        }
        Ok(toks)
    }
}

} // verus!
