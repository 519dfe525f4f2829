//! Byte-level tokenization: separator skipping, maximal runs of one
//! character class, and digit-run parsing into an unsigned integer.
//!
//! The engine works on the UTF-8 bytes of its input. Separators are ASCII
//! whitespace and the comma; a word is a maximal run of ASCII letters and
//! periods (so dotted abbreviations such as a meridiem marker tokenize
//! whole); a number is a maximal run of ASCII digits.

use vstd::prelude::*;

verus! {

/// The character classes the tokenizer distinguishes.
#[derive(Debug, Clone, Copy, PartialEq, Eq, Structural)]
pub enum ByteClass {
    /// ASCII whitespace or a comma: skipped before a token.
    Sep,
    /// An ASCII letter or a period: part of a word.
    Word,
    /// An ASCII digit: part of a number.
    Digit,
}

/// Whether byte `b` is a separator: ASCII whitespace (space, tab, line
/// feed, vertical tab, form feed, carriage return) or a comma.
pub open spec fn is_sep_byte(b: u8) -> bool {
    b == 32 || (9 <= b && b <= 13) || b == 44
}

/// Whether byte `b` belongs to a word: an ASCII letter or a period.
pub open spec fn is_word_byte(b: u8) -> bool {
    (97 <= b && b <= 122) || (65 <= b && b <= 90) || b == 46
}

/// Whether byte `b` is an ASCII digit.
pub open spec fn is_digit_byte(b: u8) -> bool {
    48 <= b && b <= 57
}

/// Whether byte `b` belongs to class `cls`.
pub open spec fn in_class(b: u8, cls: ByteClass) -> bool {
    match cls {
        ByteClass::Sep => is_sep_byte(b),
        ByteClass::Word => is_word_byte(b),
        ByteClass::Digit => is_digit_byte(b),
    }
}

/// The first position at or after `i` whose byte is not of class `cls`
/// (or the end of `s`): the end of the maximal `cls`-run starting at `i`.
pub open spec fn run_end(s: Seq<u8>, i: int, cls: ByteClass) -> int
    decreases s.len() - i,
{
    if i < 0 || i >= s.len() {
        i
    } else if in_class(s[i], cls) {
        run_end(s, i + 1, cls)
    } else {
        i
    }
}

/// The end of a `cls`-run lies between its start and the end of the
/// sequence; every byte inside the run is of the class, and the byte at
/// the end (if any) is not.
pub proof fn lemma_run_end(s: Seq<u8>, i: int, cls: ByteClass)
    requires
        0 <= i <= s.len(),
    ensures
        i <= run_end(s, i, cls) <= s.len(),
        forall|k: int| i <= k < run_end(s, i, cls) ==> in_class(s[k], cls),
        run_end(s, i, cls) < s.len() ==> !in_class(s[run_end(s, i, cls)], cls),
    decreases s.len() - i,
{
    if i < s.len() && in_class(s[i], cls) {
        lemma_run_end(s, i + 1, cls);
    }
}

/// Whether byte `b` belongs to class `cls`.
pub fn byte_in_class(b: u8, cls: ByteClass) -> (r: bool)
    ensures
        r == in_class(b, cls),
{
    match cls {
        ByteClass::Sep => b == 32 || (9 <= b && b <= 13) || b == 44,
        ByteClass::Word => (97 <= b && b <= 122) || (65 <= b && b <= 90) || b == 46,
        ByteClass::Digit => 48 <= b && b <= 57,
    }
}

/// Scans the maximal run of bytes of class `cls` starting at `i` and
/// returns the position just past it.
pub fn scan_run(s: &[u8], i: usize, cls: ByteClass) -> (j: usize)
    requires
        i <= s@.len(),
    ensures
        j == run_end(s@, i as int, cls),
        i <= j <= s@.len(),
{
    let mut j: usize = i;
    while j < s.len() && byte_in_class(s[j], cls)
        invariant
            i <= j <= s@.len(),
            run_end(s@, i as int, cls) == run_end(s@, j as int, cls),
        decreases s@.len() - j,
    {
        j = j + 1;
    }
    proof {
        lemma_run_end(s@, j as int, cls);
    }
    j
}

/// The value of a sequence of ASCII digit bytes read as a decimal number.
pub open spec fn digits_val(s: Seq<u8>) -> int
    decreases s.len(),
{
    if s.len() == 0 {
        0
    } else {
        digits_val(s.drop_last()) * 10 + s.last() - 48
    }
}

/// The value of a digit sequence is non-negative.
pub proof fn lemma_digits_val_nonneg(s: Seq<u8>)
    requires
        forall|k: int| 0 <= k < s.len() ==> is_digit_byte(s[k]),
    ensures
        digits_val(s) >= 0,
    decreases s.len(),
{
    if s.len() > 0 {
        lemma_digits_val_nonneg(s.drop_last());
    }
}

/// Extending a digit sequence on the right can only grow its value.
pub proof fn lemma_digits_val_prefix(s: Seq<u8>, n: int)
    requires
        forall|k: int| 0 <= k < s.len() ==> is_digit_byte(s[k]),
        0 <= n <= s.len(),
    ensures
        digits_val(s.subrange(0, n)) <= digits_val(s),
    decreases s.len() - n,
{
    if n < s.len() {
        let t = s.subrange(0, n + 1);
        assert(t.drop_last() =~= s.subrange(0, n));
        lemma_digits_val_nonneg(s.subrange(0, n));
        assert(digits_val(s.subrange(0, n)) <= digits_val(t));
        lemma_digits_val_prefix(s, n + 1);
        assert(s.subrange(0, s.len() as int) =~= s);
    } else {
        assert(s.subrange(0, s.len() as int) =~= s);
    }
}

/// Parses the digit bytes of `s` between `i` and `j` as a decimal
/// number, failing exactly when the value does not fit in `usize`.
pub fn parse_digits(s: &[u8], i: usize, j: usize) -> (r: Option<usize>)
    requires
        i <= j <= s@.len(),
        forall|k: int| i <= k < j ==> is_digit_byte(s@[k]),
    ensures
        match r {
            Some(n) => n == digits_val(s@.subrange(i as int, j as int)),
            None => digits_val(s@.subrange(i as int, j as int)) > usize::MAX,
        },
{
    let ghost whole = s@.subrange(i as int, j as int);
    let mut acc: usize = 0;
    let mut k: usize = i;
    while k < j
        invariant
            i <= k <= j <= s@.len(),
            forall|t: int| i <= t < j ==> is_digit_byte(s@[t]),
            whole == s@.subrange(i as int, j as int),
            acc == digits_val(s@.subrange(i as int, k as int)),
        decreases j - k,
    {
        let d = s[k];
        assert(is_digit_byte(d));
        let dv: usize = (d - 48) as usize;
        if acc > (usize::MAX - dv) / 10 {
            proof {
                let part = s@.subrange(i as int, k as int + 1);
                assert(part.drop_last() =~= s@.subrange(i as int, k as int));
                assert(acc * 10 + dv > usize::MAX) by (nonlinear_arith)
                    requires
                        acc > (usize::MAX - dv) / 10,
                        dv <= 9,
                ;
                assert(digits_val(part) > usize::MAX);
                assert(forall|t: int| 0 <= t < whole.len() ==> is_digit_byte(whole[t]));
                assert(part =~= whole.subrange(0, k - i + 1));
                lemma_digits_val_prefix(whole, k - i + 1);
            }
            return None;
        }
        proof {
            assert(acc * 10 + dv <= usize::MAX) by (nonlinear_arith)
                requires
                    acc <= (usize::MAX - dv) / 10,
                    dv <= 9,
            ;
            let part = s@.subrange(i as int, k as int + 1);
            assert(part.drop_last() =~= s@.subrange(i as int, k as int));
        }
        acc = acc * 10 + dv;
        k = k + 1;
    }
    assert(s@.subrange(i as int, k as int) =~= whole);
    Some(acc)
}

/// Whether two byte slices hold the same bytes.
pub fn bytes_eq(a: &[u8], b: &[u8]) -> (r: bool)
    ensures
        r == (a@ == b@),
{
    if a.len() != b.len() {
        assert(a@ != b@);
        return false;
    }
    let mut k: usize = 0;
    while k < a.len()
        invariant
            0 <= k <= a@.len(),
            a@.len() == b@.len(),
            forall|t: int| 0 <= t < k ==> a@[t] == b@[t],
        decreases a@.len() - k,
    {
        if a[k] != b[k] {
            assert(a@ != b@);
            return false;
        }
        k = k + 1;
    }
    proof {
        assert(a@ =~= b@);
    }
    true
}

} // verus!
