//! The recognizers: fuzzy word recognition against a target word, and
//! bounded numeric recognition, plus the data-driven recognizer table
//! entry that rules are built from.

use vstd::prelude::*;
use vstd::string::StringSliceAdditionalSpecFns;

use crate::distance::ascii_seq;
use crate::distance::damerau_levenshtein;
use crate::distance::dl_dist;
use crate::text::ByteClass;
use crate::text::bytes_eq;
use crate::text::digits_val;
use crate::text::is_word_byte;
use crate::text::lemma_digits_val_nonneg;
use crate::text::lemma_run_end;
use crate::text::parse_digits;
use crate::text::run_end;
use crate::text::scan_run;
use crate::tokens::ErrorKind;
use crate::tokens::PToken;
use crate::tokens::Token;
use crate::tokens::TokenMatch;

verus! {

/// Selects the constructor for a numeric token.
#[derive(Debug, Clone, Copy, PartialEq, Eq, Structural)]
pub enum NumKind {
    /// Builds `Token::Hour` from the recognized value.
    HourValue,
}

/// The token built by a numeric recognizer of kind `kind` from value `n`.
pub open spec fn num_token(kind: NumKind, n: usize) -> Token {
    match kind {
        NumKind::HourValue => Token::Hour(n),
    }
}

/// One entry of a rule's recognizer table: either a fuzzy word
/// recognizer or a bounded numeric recognizer.
#[derive(Debug, Clone, PartialEq, Eq)]
pub enum Recognizer {
    /// Recognizes a word within `max_dist` edits of `target`, producing
    /// `token` at priority `priority`.
    Word { target: Vec<u8>, max_dist: usize, token: Token, priority: isize },
    /// Recognizes a number in `[low, high]`, producing the token of
    /// `kind` at priority `priority`.
    Number { low: usize, high: usize, kind: NumKind, priority: isize },
}

/// The mathematical model of a `Recognizer`: the same data with the
/// target word as a byte sequence.
#[verifier::ext_equal]
pub enum RecModel {
    Word { target: Seq<u8>, max_dist: usize, token: Token, priority: isize },
    Number { low: usize, high: usize, kind: NumKind, priority: isize },
}

impl View for Recognizer {
    type V = RecModel;

    open spec fn view(&self) -> RecModel {
        match self {
            Recognizer::Word { target, max_dist, token, priority } => RecModel::Word {
                target: target@,
                max_dist: *max_dist,
                token: *token,
                priority: *priority,
            },
            Recognizer::Number { low, high, kind, priority } => RecModel::Number {
                low: *low,
                high: *high,
                kind: *kind,
                priority: *priority,
            },
        }
    }
}

/// A recognizer is well formed when its target word is ASCII.
pub open spec fn rec_wf(c: RecModel) -> bool {
    match c {
        RecModel::Word { target, .. } => ascii_seq(target),
        RecModel::Number { .. } => true,
    }
}

/// What recognizing a word at position `from` of `s` returns: the word
/// is the maximal run of word bytes after leading separators. An empty
/// word fails with `Empty`; with `max_dist` zero the word must equal the
/// target exactly; otherwise it must lie within `max_dist` edits of the
/// target, and the observed distance is recorded in the match.
pub open spec fn recognize_word_spec(
    s: Seq<u8>,
    from: int,
    target: Seq<u8>,
    max_dist: int,
    token: PToken,
) -> Result<TokenMatch, ErrorKind> {
    let j = run_end(s, from, ByteClass::Sep);
    let k = run_end(s, j, ByteClass::Word);
    if k == j {
        Err(ErrorKind::Empty)
    } else if max_dist == 0 {
        if s.subrange(j, k) == target {
            Ok(TokenMatch { token, dist: 0, end: k as usize })
        } else {
            Err(ErrorKind::Unknown)
        }
    } else {
        if dl_dist(s.subrange(j, k), target) <= max_dist {
            Ok(TokenMatch { token, dist: dl_dist(s.subrange(j, k), target), end: k as usize })
        } else {
            Err(ErrorKind::Unknown)
        }
    }
}

/// Recognizes a word at position `from` of the byte slice `s` against
/// `target`, tolerating at most `max_dist` edits.
pub fn recognize_word_at(
    s: &[u8],
    from: usize,
    target: &[u8],
    max_dist: usize,
    token: PToken,
) -> (r: Result<TokenMatch, ErrorKind>)
    requires
        from <= s@.len(),
        ascii_seq(target@),
    ensures
        r == recognize_word_spec(s@, from as int, target@, max_dist as int, token),
{
    let j = scan_run(s, from, ByteClass::Sep);
    let k = scan_run(s, j, ByteClass::Word);
    if k == j {
        return Err(ErrorKind::Empty);
    }
    let word = &s[j..k];
    proof {
        lemma_run_end(s@, j as int, ByteClass::Word);
        assert(forall|t: int| 0 <= t < word@.len() ==> is_word_byte(#[trigger] word@[t]));
        assert(ascii_seq(word@));
    }
    if max_dist == 0 {
        if bytes_eq(word, target) {
            Ok(TokenMatch { token, dist: 0, end: k })
        } else {
            Err(ErrorKind::Unknown)
        }
    } else {
        let d = damerau_levenshtein(word, target);
        if d <= max_dist {
            Ok(TokenMatch { token, dist: d, end: k })
        } else {
            Err(ErrorKind::Unknown)
        }
    }
}

/// Recognizes a word in `input` against `target`: the public entry of
/// the fuzzy recognizer, stated over the bytes of the two strings.
pub fn recognize_word(input: &str, target: &str, max_dist: usize, token: PToken) -> (r: Result<
    TokenMatch,
    ErrorKind,
>)
    requires
        target.is_ascii(),
    ensures
        r == recognize_word_spec(
            input.spec_bytes(),
            0,
            target.spec_bytes(),
            max_dist as int,
            token,
        ),
{
    let s = input.as_bytes();
    let t = target.as_bytes();
    proof {
        vstd::utf8::is_ascii_chars_encode_utf8(target@);
        assert(ascii_seq(t@));
    }
    recognize_word_at(s, 0, t, max_dist, token)
}

/// When word recognition accepts: with a maximum distance of zero it
/// succeeds exactly when the tokenized word is non-empty and equals the
/// target; with a positive tolerance it succeeds exactly when the
/// non-empty word lies within that many edits of the target, and the
/// match records the observed distance.
pub proof fn lemma_recognize_word_accepts(
    s: Seq<u8>,
    from: int,
    target: Seq<u8>,
    max_dist: int,
    token: PToken,
)
    requires
        0 <= from <= s.len(),
    ensures
        ({
            let j = run_end(s, from, ByteClass::Sep);
            let k = run_end(s, j, ByteClass::Word);
            let w = s.subrange(j, k);
            let r = recognize_word_spec(s, from, target, max_dist, token);
            &&& (max_dist == 0 ==> (r is Ok <==> k > j && w == target))
            &&& (max_dist > 0 ==> (r is Ok <==> k > j && dl_dist(w, target) <= max_dist))
            &&& (r matches Ok(tm) ==> tm.token == token && (max_dist > 0 ==> tm.dist == dl_dist(
                w,
                target,
            )) && (max_dist == 0 ==> tm.dist == 0))
        }),
{
    lemma_run_end(s, from, ByteClass::Sep);
    lemma_run_end(s, run_end(s, from, ByteClass::Sep), ByteClass::Word);
}

/// What recognizing a bounded number at position `from` of `s` returns:
/// the maximal run of digits after leading separators is read as a
/// decimal value. No digits, or a value too large for `usize`, fails
/// with `Unknown`; a value outside `[low, high]` fails with
/// `OutOfBounds`; otherwise the numeric token is produced exactly.
pub open spec fn recognize_number_spec(
    s: Seq<u8>,
    from: int,
    low: usize,
    high: usize,
    kind: NumKind,
    priority: isize,
) -> Result<TokenMatch, ErrorKind> {
    let j = run_end(s, from, ByteClass::Sep);
    let k = run_end(s, j, ByteClass::Digit);
    let v = digits_val(s.subrange(j, k));
    if k == j || v > usize::MAX {
        Err(ErrorKind::Unknown)
    } else if low <= v && v <= high {
        Ok(
            TokenMatch {
                token: PToken::PToken(num_token(kind, v as usize), priority),
                dist: 0,
                end: k as usize,
            },
        )
    } else {
        Err(ErrorKind::OutOfBounds)
    }
}

/// Recognizes a number in `[low, high]` at position `from` of `s`.
pub fn recognize_number_at(
    s: &[u8],
    from: usize,
    low: usize,
    high: usize,
    kind: NumKind,
    priority: isize,
) -> (r: Result<TokenMatch, ErrorKind>)
    requires
        from <= s@.len(),
    ensures
        r == recognize_number_spec(s@, from as int, low, high, kind, priority),
{
    let j = scan_run(s, from, ByteClass::Sep);
    let k = scan_run(s, j, ByteClass::Digit);
    if k == j {
        return Err(ErrorKind::Unknown);
    }
    proof {
        lemma_run_end(s@, j as int, ByteClass::Digit);
        lemma_digits_val_nonneg(s@.subrange(j as int, k as int));
    }
    match parse_digits(s, j, k) {
        None => Err(ErrorKind::Unknown),
        Some(n) => {
            let tok = match kind {
                NumKind::HourValue => Token::Hour(n),
            };
            if low <= n && n <= high {
                Ok(TokenMatch { token: PToken::PToken(tok, priority), dist: 0, end: k })
            } else {
                Err(ErrorKind::OutOfBounds)
            }
        },
    }
}

/// Recognizes a bounded number in `input`: the public entry of the
/// numeric recognizer, stated over the bytes of the input.
pub fn recognize_bounded_number(input: &str, low: usize, high: usize, kind: NumKind) -> (r: Result<
    TokenMatch,
    ErrorKind,
>)
    ensures
        r == recognize_number_spec(input.spec_bytes(), 0, low, high, kind, 0),
{
    recognize_number_at(input.as_bytes(), 0, low, high, kind, 0)
}

/// What one recognizer attempt returns. An exact-match request forces a
/// word recognizer's tolerance to zero; a numeric recognizer is exact by
/// construction and ignores the flag.
pub open spec fn attempt_spec(c: RecModel, s: Seq<u8>, from: int, exact: bool) -> Result<
    TokenMatch,
    ErrorKind,
> {
    match c {
        RecModel::Word { target, max_dist, token, priority } => recognize_word_spec(
            s,
            from,
            target,
            if exact {
                0
            } else {
                max_dist as int
            },
            PToken::PToken(token, priority),
        ),
        RecModel::Number { low, high, kind, priority } => recognize_number_spec(
            s,
            from,
            low,
            high,
            kind,
            priority,
        ),
    }
}

/// Runs one recognizer at position `from` of `s`.
pub fn attempt(c: &Recognizer, s: &[u8], from: usize, exact: bool) -> (r: Result<
    TokenMatch,
    ErrorKind,
>)
    requires
        from <= s@.len(),
        rec_wf(c@),
    ensures
        r == attempt_spec(c@, s@, from as int, exact),
{
    match c {
        Recognizer::Word { target, max_dist, token, priority } => {
            let eff: usize = if exact {
                0
            } else {
                *max_dist
            };
            recognize_word_at(s, from, target.as_slice(), eff, PToken::PToken(*token, *priority))
        },
        Recognizer::Number { low, high, kind, priority } => {
            recognize_number_at(s, from, *low, *high, *kind, *priority)
        },
    }
}

/// A successful attempt consumes at least one byte and stops within the
/// input.
pub proof fn lemma_attempt_consumes(c: RecModel, s: Seq<u8>, from: int, exact: bool)
    requires
        0 <= from <= s.len(),
        s.len() <= usize::MAX,
    ensures
        attempt_spec(c, s, from, exact) matches Ok(tm) ==> from < tm.end <= s.len(),
{
    lemma_run_end(s, from, ByteClass::Sep);
    let j = run_end(s, from, ByteClass::Sep);
    lemma_run_end(s, j, ByteClass::Word);
    lemma_run_end(s, j, ByteClass::Digit);
}

} // verus!
