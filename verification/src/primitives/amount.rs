//! Fixed-point monetary amounts with four fractional digits.
//!
//! Text of the shape `digits` or `digits.digits` denotes an amount; only the
//! first four fractional digits count, the rest ("dust") is discarded.
//! Formatting renders the integer part and, when the fractional remainder is
//! nonzero, a `.` followed by exactly four digits.

use vstd::prelude::*;
use vstd::string::StringExecFns;
use vstd::string::StrSliceExecFns;

verus! {

/// A non-negative monetary quantity with four fractional digits.
///
/// The wrapped integer counts ten-thousandths of a unit, so `Amount(15000)`
/// is one and a half units.  Fractional digits past the fourth ("dust") are
/// discarded when parsing, never rounded.
#[derive(Debug, Clone, Copy, PartialEq, Eq, PartialOrd, Ord, Hash, Structural)]
pub struct Amount(pub u64);

/// Why a piece of text could not be parsed as an [`Amount`].
#[derive(Debug, Clone, Copy, PartialEq, Eq, Structural)]
pub enum ParseAmountError {
    /// The text is not an unsigned decimal number with an optional
    /// fractional part.
    InvalidFormat,
    /// The text is well formed but the value does not fit the internal
    /// representation.
    OutOfRange,
}

/// Why a floating-point number could not be converted to an [`Amount`].
///
/// The conversion itself works on floating-point input and therefore lives
/// with the unverified I/O layer; only its error type belongs to the core,
/// so that callers can report it alongside [`ParseAmountError`].
#[derive(Debug, Clone, Copy, PartialEq, Eq, Structural)]
pub enum AmountFromF64Error {
    /// The input was neither a normal number nor exactly zero.
    NonNormal,
    /// The input was negative.
    Negative,
    /// The input was too large for a direct conversion and its textual form
    /// failed to parse.
    Fallback(ParseAmountError),
}

/// Numeric value of a decimal digit; ten for every other character.
pub open spec fn digit_val(c: char) -> int {
    if c == '0' {
        0
    } else if c == '1' {
        1
    } else if c == '2' {
        2
    } else if c == '3' {
        3
    } else if c == '4' {
        4
    } else if c == '5' {
        5
    } else if c == '6' {
        6
    } else if c == '7' {
        7
    } else if c == '8' {
        8
    } else if c == '9' {
        9
    } else {
        10
    }
}

/// True exactly on the decimal digits.
pub open spec fn is_digit(c: char) -> bool {
    digit_val(c) < 10
}

/// Every character of `s` is a decimal digit.
pub open spec fn all_digits(s: Seq<char>) -> bool {
    forall|k: int| 0 <= k < s.len() ==> is_digit(#[trigger] s[k])
}

/// The number denoted by a sequence of decimal digits, most significant
/// first.  The empty sequence denotes zero.
pub open spec fn digits_val(s: Seq<char>) -> int
    decreases s.len(),
{
    if s.len() == 0 {
        0
    } else {
        digits_val(s.drop_last()) * 10 + digit_val(s.last())
    }
}

/// Ten to the `n`.
pub open spec fn pow10(n: nat) -> int
    decreases n,
{
    if n == 0 {
        1
    } else {
        10 * pow10((n - 1) as nat)
    }
}

/// `s` splits at index `i` into a nonempty run of digits, a dot, and a
/// nonempty run of digits.
pub open spec fn split_at_dot(s: Seq<char>, i: int) -> bool {
    &&& 0 < i
    &&& i + 1 < s.len()
    &&& s[i] == '.'
    &&& all_digits(s.take(i))
    &&& all_digits(s.skip(i + 1))
}

/// The texts that denote an amount: a nonempty run of digits, optionally
/// followed by a dot and at least one more digit.
pub open spec fn valid_amount_text(s: Seq<char>) -> bool {
    ||| (s.len() > 0 && all_digits(s))
    ||| (exists|i: int| split_at_dot(s, i))
}

/// Value of a fractional-digit run in ten-thousandths: the first four digits
/// count, shorter runs are padded with zeros on the right.
pub open spec fn frac_val(f: Seq<char>) -> int {
    if f.len() >= 4 {
        digits_val(f.take(4))
    } else if f.len() == 3 {
        digits_val(f) * 10
    } else if f.len() == 2 {
        digits_val(f) * 100
    } else if f.len() == 1 {
        digits_val(f) * 1000
    } else {
        0
    }
}

/// Value, in ten-thousandths, of a text that splits at dot position `i`.
pub open spec fn value_with_dot(s: Seq<char>, i: int) -> int {
    digits_val(s.take(i)) * 10000 + frac_val(s.skip(i + 1))
}

/// The value, in ten-thousandths, denoted by a valid amount text.
pub open spec fn amount_value(s: Seq<char>) -> int {
    if s.len() > 0 && all_digits(s) {
        digits_val(s) * 10000
    } else {
        value_with_dot(s, choose|i: int| split_at_dot(s, i))
    }
}

/// The decimal digit character for `d` in `[0, 9]`.
pub open spec fn digit_char(d: int) -> char {
    if d == 0 {
        '0'
    } else if d == 1 {
        '1'
    } else if d == 2 {
        '2'
    } else if d == 3 {
        '3'
    } else if d == 4 {
        '4'
    } else if d == 5 {
        '5'
    } else if d == 6 {
        '6'
    } else if d == 7 {
        '7'
    } else if d == 8 {
        '8'
    } else {
        '9'
    }
}

/// Shortest decimal rendering of `n`, most significant digit first.
pub open spec fn dec_digits(n: nat) -> Seq<char>
    decreases n,
{
    if n < 10 {
        seq![digit_char(n as int)]
    } else {
        dec_digits(n / 10).push(digit_char((n % 10) as int))
    }
}

/// Four-digit, zero-padded rendering of `p` in `[0, 9999]`.
pub open spec fn pad4(p: int) -> Seq<char> {
    seq![
        digit_char(p / 1000),
        digit_char(p / 100 % 10),
        digit_char(p / 10 % 10),
        digit_char(p % 10),
    ]
}

/// The rendering of an amount of `v` ten-thousandths: the integer part, then
/// a dot and four fractional digits unless the fractional remainder is zero.
pub open spec fn format_spec(v: u64) -> Seq<char> {
    dec_digits((v / 10000) as nat) + if v % 10000 == 0 {
        Seq::<char>::empty()
    } else {
        seq!['.'] + pad4(v as int % 10000)
    }
}

/// Digit values never go below zero, so a digit run never denotes a negative
/// number.
pub proof fn lemma_digits_val_nonneg(s: Seq<char>)
    ensures
        digits_val(s) >= 0,
    decreases s.len(),
{
    if s.len() > 0 {
        lemma_digits_val_nonneg(s.drop_last());
    }
}

/// A run of at most `k` digits denotes less than ten to the `k`.
pub proof fn lemma_digits_val_bound(s: Seq<char>, k: nat)
    requires
        all_digits(s),
        s.len() <= k,
    ensures
        digits_val(s) < pow10(k),
    decreases k,
{
    lemma_pow10_pos(k);
    if s.len() == 0 {
    } else {
        lemma_digits_val_bound(s.drop_last(), (k - 1) as nat);
        assert(digit_val(s.last()) <= 9);
        assert(digits_val(s.drop_last()) <= pow10((k - 1) as nat) - 1);
        assert(digits_val(s.drop_last()) * 10 <= (pow10((k - 1) as nat) - 1) * 10)
            by (nonlinear_arith)
            requires
                digits_val(s.drop_last()) <= pow10((k - 1) as nat) - 1,
        ;
    }
}

/// Powers of ten are positive.
pub proof fn lemma_pow10_pos(n: nat)
    ensures
        pow10(n) >= 1,
    decreases n,
{
    if n > 0 {
        lemma_pow10_pos((n - 1) as nat);
    }
}

/// Concatenating digit runs multiplies the left value by ten to the length
/// of the right run and adds the right value.
pub proof fn lemma_digits_val_concat(a: Seq<char>, b: Seq<char>)
    ensures
        digits_val(a + b) == digits_val(a) * pow10(b.len()) + digits_val(b),
    decreases b.len(),
{
    if b.len() == 0 {
        assert(a + b =~= a);
    } else {
        lemma_digits_val_concat(a, b.drop_last());
        assert((a + b).drop_last() =~= a + b.drop_last());
        assert((a + b).last() == b.last());
        assert(digits_val(a) * pow10((b.len() - 1) as nat) * 10 == digits_val(a) * pow10(
            b.len(),
        ))
            by (nonlinear_arith)
            requires
                pow10(b.len()) == 10 * pow10((b.len() - 1) as nat),
        ;
    }
}

/// A digit run is worth at least any of its prefixes.
pub proof fn lemma_digits_val_prefix(s: Seq<char>, k: int)
    requires
        0 <= k <= s.len(),
    ensures
        digits_val(s) >= digits_val(s.take(k)),
{
    assert(s =~= s.take(k) + s.skip(k));
    lemma_digits_val_concat(s.take(k), s.skip(k));
    lemma_digits_val_nonneg(s.take(k));
    lemma_digits_val_nonneg(s.skip(k));
    lemma_pow10_pos(s.skip(k).len() as nat);
    assert(digits_val(s.take(k)) * pow10(s.skip(k).len() as nat) >= digits_val(s.take(k)))
        by (nonlinear_arith)
        requires
            digits_val(s.take(k)) >= 0,
            pow10(s.skip(k).len() as nat) >= 1,
    ;
}

/// A valid amount text has at most one dot position.
pub proof fn lemma_dot_unique(s: Seq<char>, i: int, j: int)
    requires
        split_at_dot(s, i),
        split_at_dot(s, j),
    ensures
        i == j,
{
    if i < j {
        assert(is_digit(s.take(j)[i]));
    }
    if j < i {
        assert(is_digit(s.take(i)[j]));
    }
}

/// A text that splits at a dot is valid and is worth `value_with_dot` there.
pub proof fn lemma_amount_value_at(s: Seq<char>, i: int)
    requires
        split_at_dot(s, i),
    ensures
        valid_amount_text(s),
        amount_value(s) == value_with_dot(s, i),
{
    assert(!is_digit('.'));
    assert(!all_digits(s));
    let j = choose|j: int| split_at_dot(s, j);
    lemma_dot_unique(s, i, j);
}

/// Small powers of ten, spelled out for the parser's proofs.
pub proof fn lemma_pow10_small()
    ensures
        pow10(0) == 1,
        pow10(1) == 10,
        pow10(2) == 100,
        pow10(3) == 1000,
        pow10(4) == 10000,
{
    assert(pow10(0) == 1);
    assert(pow10(1) == 10);
    assert(pow10(2) == 100);
    assert(pow10(3) == 1000);
    assert(pow10(4) == 10000);
}

/// A text whose first non-digit is not a dot has no valid reading.
proof fn lemma_no_valid_reading(s: Seq<char>, i: int)
    requires
        0 < i < s.len(),
        all_digits(s.take(i)),
        !is_digit(s[i]),
        s[i] != '.',
    ensures
        !valid_amount_text(s),
{
    assert(!all_digits(s)) by {
        assert(!is_digit(s[i]));
    }
    assert forall|j: int| !split_at_dot(s, j) by {
        if split_at_dot(s, j) {
            if j < i {
                assert(is_digit(s.take(i)[j]));
            } else if j > i {
                assert(is_digit(s.take(j)[i]));
            }
        }
    }
}

/// A text with a non-digit after its dot has no valid reading.
proof fn lemma_no_valid_reading_frac(s: Seq<char>, i: int, k: int)
    requires
        0 < i,
        i + 1 <= k < s.len(),
        s[i] == '.',
        all_digits(s.take(i)),
        all_digits(s.subrange(i + 1, k)),
        !is_digit(s[k]),
    ensures
        !valid_amount_text(s),
{
    assert(!all_digits(s)) by {
        assert(!is_digit('.'));
        assert(!is_digit(s[i]));
    }
    assert forall|j: int| !split_at_dot(s, j) by {
        if split_at_dot(s, j) {
            if j < i {
                assert(is_digit(s.take(i)[j]));
            } else if j > i {
                assert(is_digit(s.take(j)[i]));
            } else {
                assert(is_digit(s.skip(i + 1)[k - i - 1]));
            }
        }
    }
}

/// A text that ends at its dot has no valid reading.
proof fn lemma_no_valid_reading_short(s: Seq<char>, i: int)
    requires
        0 < i,
        i == s.len() - 1,
        s[i] == '.',
        all_digits(s.take(i)),
    ensures
        !valid_amount_text(s),
{
    assert(!all_digits(s)) by {
        assert(!is_digit('.'));
        assert(!is_digit(s[i]));
    }
    assert forall|j: int| !split_at_dot(s, j) by {
        if split_at_dot(s, j) {
            if j < i {
                assert(is_digit(s.take(i)[j]));
            }
        }
    }
}

/// When the integer part alone exceeds the representable range, so does the
/// whole value.
proof fn lemma_value_with_dot_big(s: Seq<char>, i: int)
    requires
        split_at_dot(s, i),
        digits_val(s.take(i)) > u64::MAX,
    ensures
        value_with_dot(s, i) > u64::MAX,
{
    lemma_frac_val_nonneg(s.skip(i + 1));
}

/// Fractional values never go below zero.
proof fn lemma_frac_val_nonneg(f: Seq<char>)
    ensures
        frac_val(f) >= 0,
{
    lemma_digits_val_nonneg(f);
    if f.len() >= 4 {
        lemma_digits_val_nonneg(f.take(4));
    }
}

/// Parse a decimal digit; anything else yields ten.
fn digit_of(c: char) -> (r: u64)
    ensures
        r as int == digit_val(c),
{
    if c == '0' {
        0
    } else if c == '1' {
        1
    } else if c == '2' {
        2
    } else if c == '3' {
        3
    } else if c == '4' {
        4
    } else if c == '5' {
        5
    } else if c == '6' {
        6
    } else if c == '7' {
        7
    } else if c == '8' {
        8
    } else if c == '9' {
        9
    } else {
        10
    }
}

/// The one-character text for a decimal digit.
fn digit_str(d: u64) -> (r: &'static str)
    requires
        d <= 9,
    ensures
        r@ =~= seq![digit_char(d as int)],
{
    proof {
        reveal_strlit("0");
        reveal_strlit("1");
        reveal_strlit("2");
        reveal_strlit("3");
        reveal_strlit("4");
        reveal_strlit("5");
        reveal_strlit("6");
        reveal_strlit("7");
        reveal_strlit("8");
        reveal_strlit("9");
    }
    if d == 0 {
        "0"
    } else if d == 1 {
        "1"
    } else if d == 2 {
        "2"
    } else if d == 3 {
        "3"
    } else if d == 4 {
        "4"
    } else if d == 5 {
        "5"
    } else if d == 6 {
        "6"
    } else if d == 7 {
        "7"
    } else if d == 8 {
        "8"
    } else {
        "9"
    }
}

/// The digit characters for a stack of digits, top of the stack first.
spec fn chars_of_rev(s: Seq<u64>) -> Seq<char>
    decreases s.len(),
{
    if s.len() == 0 {
        Seq::<char>::empty()
    } else {
        seq![digit_char(s.last() as int)] + chars_of_rev(s.drop_last())
    }
}

/// Append the shortest decimal rendering of `x` to `out`.
fn push_dec_digits(out: &mut String, x: u64)
    ensures
        final(out)@ == old(out)@ + dec_digits(x as nat),
{
    let ghost start = out@;
    let mut rev: Vec<u64> = Vec::new();
    let mut y = x;
    loop
        invariant_except_break
            forall|t: int| 0 <= t < rev@.len() ==> #[trigger] rev@[t] <= 9,
            (rev@.len() == 0 && y == x) || (y > 0 && dec_digits(x as nat) == dec_digits(y as nat)
                + chars_of_rev(rev@)),
        ensures
            y == 0,
            rev@.len() > 0,
            forall|t: int| 0 <= t < rev@.len() ==> #[trigger] rev@[t] <= 9,
            dec_digits(x as nat) == chars_of_rev(rev@),
        decreases y, (if rev@.len() == 0 { 1int } else { 0int }),
    {
        let ghost rev0 = rev@;
        let d = y % 10;
        rev.push(d);
        proof {
            assert(rev@.drop_last() =~= rev0);
            assert(chars_of_rev(rev@) == seq![digit_char(d as int)] + chars_of_rev(rev0));
        }
        y = y / 10;
        if y == 0 {
            proof {
                if rev0.len() == 0 {
                    // The whole number was a single digit.
                    assert(dec_digits(x as nat) =~= chars_of_rev(rev@));
                } else {
                    assert(dec_digits((d as nat)) =~= seq![digit_char(d as int)]);
                    assert(seq![digit_char(d as int)] + chars_of_rev(rev0) =~= chars_of_rev(
                        rev@,
                    ));
                }
                assert(dec_digits(x as nat) =~= chars_of_rev(rev@));
            }
            break ;
        }
        proof {
            assert(dec_digits(x as nat) =~= dec_digits(y as nat) + chars_of_rev(rev@));
        }
    }
    // Pop the stack to emit the most significant digit first.
    loop
        invariant
            forall|t: int| 0 <= t < rev@.len() ==> #[trigger] rev@[t] <= 9,
            start + dec_digits(x as nat) == out@ + chars_of_rev(rev@),
        ensures
            rev@.len() == 0,
            start + dec_digits(x as nat) == out@ + chars_of_rev(rev@),
        decreases rev@.len(),
    {
        if rev.len() == 0 {
            break ;
        }
        let ghost rev0 = rev@;
        let d = match rev.pop() {
            Some(d) => d,
            None => {
                proof {
                    assert(false);
                }
                0
            },
        };
        proof {
            assert(rev0.last() == d);
            assert(rev0.drop_last() =~= rev@);
            assert(chars_of_rev(rev0) == seq![digit_char(d as int)] + chars_of_rev(rev@));
        }
        out.append(digit_str(d));
        proof {
            assert(start + dec_digits(x as nat) =~= out@ + chars_of_rev(rev@));
        }
    }
    proof {
        assert(chars_of_rev(rev@) =~= Seq::<char>::empty());
        assert(out@ =~= start + dec_digits(x as nat));
    }
}

/// Parse a nonempty all-digit text into its value, or `None` when the text
/// has another shape or the value exceeds `u64`.
pub(crate) fn parse_decimal_u64(s: &str) -> (r: Option<u64>)
    ensures
        (s@.len() > 0 && all_digits(s@) && digits_val(s@) <= u64::MAX) ==> r == Some(
            digits_val(s@) as u64,
        ),
        !(s@.len() > 0 && all_digits(s@) && digits_val(s@) <= u64::MAX) ==> r is None,
{
    let n = s.unicode_len();
    if n == 0 {
        return None;
    }
    let mut i: usize = 0;
    while i < n
        invariant
            0 <= i <= n,
            n == s@.len(),
            all_digits(s@.take(i as int)),
        decreases n - i,
    {
        let d = digit_of(s.get_char(i));
        if d > 9 {
            return None;
        }
        proof {
            assert forall|k: int| 0 <= k < i + 1 implies is_digit(#[trigger] s@.take(i + 1)[k]) by {
                if k < i {
                    assert(is_digit(s@.take(i as int)[k]));
                }
            }
        }
        i += 1;
    }
    proof {
        assert(s@.take(n as int) =~= s@);
        assert(s@.subrange(0, n as int) =~= s@);
    }
    digits_to_u64(s, 0, n)
}

/// Append the shortest decimal rendering of `x` to a fresh string.
pub(crate) fn render_decimal_u64(x: u64) -> (r: String)
    ensures
        r@ == dec_digits(x as nat),
{
    let mut out = String::new();
    push_dec_digits(&mut out, x);
    proof {
        assert(out@ =~= dec_digits(x as nat));
    }
    out
}

/// Value of the digit run `s[from..to]`, or `None` when it exceeds `u64`.
fn digits_to_u64(s: &str, from: usize, to: usize) -> (r: Option<u64>)
    requires
        from <= to <= s@.len(),
        all_digits(s@.subrange(from as int, to as int)),
    ensures
        match r {
            Some(v) => v as int == digits_val(s@.subrange(from as int, to as int)),
            None => digits_val(s@.subrange(from as int, to as int)) > u64::MAX,
        },
{
    let ghost whole = s@.subrange(from as int, to as int);
    let mut acc: u64 = 0;
    let mut j: usize = from;
    while j < to
        invariant
            from <= j <= to <= s@.len(),
            all_digits(whole),
            whole == s@.subrange(from as int, to as int),
            acc as int == digits_val(s@.subrange(from as int, j as int)),
        decreases to - j,
    {
        let d = digit_of(s.get_char(j));
        assert(s@.subrange(from as int, to as int)[j - from] == s@[j as int]);
        assert(d <= 9);
        let ghost upto = s@.subrange(from as int, j + 1 as int);
        proof {
            assert(upto.drop_last() =~= s@.subrange(from as int, j as int));
            assert(upto.last() == s@[j as int]);
        }
        let next = match acc.checked_mul(10) {
            Some(x) => x.checked_add(d),
            None => None,
        };
        match next {
            Some(v) => {
                acc = v;
            },
            None => {
                proof {
                    assert(digits_val(upto) > u64::MAX);
                    assert(whole =~= upto + s@.subrange(j + 1 as int, to as int));
                    lemma_digits_val_concat(upto, s@.subrange(j + 1 as int, to as int));
                    lemma_digits_val_nonneg(s@.subrange(j + 1 as int, to as int));
                    lemma_pow10_pos((to - j - 1) as nat);
                    assert(digits_val(upto) * pow10((to - j - 1) as nat) >= digits_val(upto))
                        by (nonlinear_arith)
                        requires
                            digits_val(upto) > 0,
                            pow10((to - j - 1) as nat) >= 1,
                    ;
                }
                return None;
            },
        }
        j += 1;
    }
    proof {
        assert(s@.subrange(from as int, j as int) =~= whole);
    }
    Some(acc)
}

impl Amount {
    /// Parse an amount from text.
    ///
    /// Accepts a nonempty run of digits, optionally followed by a dot and at
    /// least one further digit; fractional digits past the fourth are
    /// discarded.  Any other shape is `InvalidFormat`; a well-formed value
    /// that does not fit the internal representation is `OutOfRange`.
    pub fn parse(s: &str) -> (r: Result<Amount, ParseAmountError>)
        ensures
            valid_amount_text(s@) && amount_value(s@) <= u64::MAX ==> r == Ok::<
                Amount,
                ParseAmountError,
            >(Amount(amount_value(s@) as u64)),
            valid_amount_text(s@) && amount_value(s@) > u64::MAX ==> r == Err::<
                Amount,
                ParseAmountError,
            >(ParseAmountError::OutOfRange),
            !valid_amount_text(s@) ==> r == Err::<Amount, ParseAmountError>(
                ParseAmountError::InvalidFormat,
            ),
    {
        let n = s.unicode_len();
        // Scan the integer part: `i` stops at the first non-digit.
        let mut i: usize = 0;
        loop
            invariant
                0 <= i <= n,
                n == s@.len(),
                all_digits(s@.take(i as int)),
            ensures
                0 <= i <= n,
                all_digits(s@.take(i as int)),
                i == n || !is_digit(s@[i as int]),
            decreases n - i,
        {
            if i == n {
                break ;
            }
            let d = digit_of(s.get_char(i));
            if d > 9 {
                break ;
            }
            proof {
                assert forall|k: int| 0 <= k < i + 1 implies is_digit(
                    #[trigger] s@.take(i + 1)[k],
                ) by {
                    if k < i {
                        assert(is_digit(s@.take(i as int)[k]));
                    }
                }
            }
            i += 1;
        }
        if i == 0 {
            // Empty text, or text that starts with a non-digit: the integer
            // part is missing, so no reading of the text is valid.
            proof {
                assert forall|j: int| !split_at_dot(s@, j) by {
                    if split_at_dot(s@, j) {
                        assert(is_digit(s@.take(j)[0]));
                    }
                }
                if s@.len() > 0 && all_digits(s@) {
                    assert(is_digit(s@[0]));
                }
            }
            return Err(ParseAmountError::InvalidFormat);
        }
        if i == n {
            // Digits only.
            proof {
                assert(s@.take(i as int) =~= s@);
                assert(s@.subrange(0, i as int) =~= s@);
            }
            let pre = match digits_to_u64(s, 0, i) {
                Some(p) => p,
                None => {
                    proof {
                        lemma_digits_val_nonneg(s@);
                        assert(digits_val(s@) * 10000 >= digits_val(s@)) by (nonlinear_arith)
                            requires
                                digits_val(s@) >= 0,
                        ;
                    }
                    return Err(ParseAmountError::OutOfRange);
                },
            };
            return match pre.checked_mul(10000) {
                Some(v) => Ok(Amount(v)),
                None => Err(ParseAmountError::OutOfRange),
            };
        }
        // A non-digit stopped the scan; it must be a dot with at least one
        // digit after it, and only digits to the end.
        let c = s.get_char(i);
        if c != '.' {
            proof {
                lemma_no_valid_reading(s@, i as int);
            }
            return Err(ParseAmountError::InvalidFormat);
        }
        let mut k = i + 1;
        loop
            invariant
                i + 1 <= k <= n,
                n == s@.len(),
                0 < i < n,
                s@[i as int] == '.',
                all_digits(s@.take(i as int)),
                all_digits(s@.subrange(i + 1 as int, k as int)),
            ensures
                k == n,
                all_digits(s@.subrange(i + 1 as int, n as int)),
            decreases n - k,
        {
            if k == n {
                break ;
            }
            let d = digit_of(s.get_char(k));
            if d > 9 {
                // A second non-digit: no valid reading remains, because the
                // only possible dot position is `i` and the fractional part
                // may hold digits only.
                proof {
                    lemma_no_valid_reading_frac(s@, i as int, k as int);
                }
                return Err(ParseAmountError::InvalidFormat);
            }
            proof {
                let sub = s@.subrange(i + 1 as int, k + 1 as int);
                assert(sub.drop_last() =~= s@.subrange(i + 1 as int, k as int));
                assert(sub.last() == s@[k as int]);
                assert forall|t: int| 0 <= t < sub.len() implies is_digit(#[trigger] sub[t]) by {
                    if t < sub.len() - 1 {
                        assert(is_digit(s@.subrange(i + 1 as int, k as int)[t]));
                    }
                }
            }
            k += 1;
        }
        if i + 1 == n {
            // The text ends right after the dot.
            proof {
                lemma_no_valid_reading_short(s@, i as int);
            }
            return Err(ParseAmountError::InvalidFormat);
        }
        proof {
            assert(s@.skip(i + 1 as int) =~= s@.subrange(i + 1 as int, n as int));
            assert(split_at_dot(s@, i as int));
            lemma_amount_value_at(s@, i as int);
            assert(s@.subrange(0, i as int) =~= s@.take(i as int));
        }
        let pre = match digits_to_u64(s, 0, i) {
            Some(p) => p,
            None => {
                proof {
                    lemma_value_with_dot_big(s@, i as int);
                }
                return Err(ParseAmountError::OutOfRange);
            },
        };
        // The fractional value: the first four digits, zero-padded.
        let flen = n - (i + 1);
        let m = if flen >= 4 {
            4
        } else {
            flen
        };
        proof {
            assert(s@.subrange(i + 1 as int, (i + 1 + m) as int) =~= s@.skip(i + 1 as int).take(
                m as int,
            ));
            lemma_digits_val_bound(s@.subrange(i + 1 as int, (i + 1 + m) as int), 4);
            lemma_digits_val_nonneg(s@.subrange(i + 1 as int, (i + 1 + m) as int));
            lemma_pow10_small();
        }
        let f = match digits_to_u64(s, i + 1, i + 1 + m) {
            Some(f) => f,
            None => {
                proof {
                    assert(false);
                }
                return Err(ParseAmountError::OutOfRange);
            },
        };
        let frac = if m == 4 {
            f
        } else if m == 3 {
            proof {
                lemma_digits_val_bound(s@.subrange(i + 1 as int, (i + 1 + m) as int), 3);
                lemma_pow10_small();
            }
            f * 10
        } else if m == 2 {
            proof {
                lemma_digits_val_bound(s@.subrange(i + 1 as int, (i + 1 + m) as int), 2);
                lemma_pow10_small();
            }
            f * 100
        } else {
            proof {
                lemma_digits_val_bound(s@.subrange(i + 1 as int, (i + 1 + m) as int), 1);
                lemma_pow10_small();
            }
            f * 1000
        };
        proof {
            assert(s@.skip(i + 1 as int).take(m as int) =~= if s@.skip(i + 1 as int).len() >= 4 {
                s@.skip(i + 1 as int).take(4)
            } else {
                s@.skip(i + 1 as int)
            });
            assert(frac as int == frac_val(s@.skip(i + 1 as int)));
        }
        let scaled = match pre.checked_mul(10000) {
            Some(x) => x.checked_add(frac),
            None => None,
        };
        match scaled {
            Some(v) => Ok(Amount(v)),
            None => {
                proof {
                    lemma_digits_val_nonneg(s@.take(i as int));
                    if pre as int * 10000 > u64::MAX {
                        assert(value_with_dot(s@, i as int) > u64::MAX);
                    }
                }
                Err(ParseAmountError::OutOfRange)
            },
        }
    }

    /// Render the amount as text: the integer part and, when the fractional
    /// remainder is nonzero, a dot and exactly four fractional digits.
    pub fn to_text(&self) -> (r: String)
        ensures
            r@ == format_spec(self.0),
    {
        let mut out = String::new();
        push_dec_digits(&mut out, self.0 / 10000);
        let p = self.0 % 10000;
        if p == 0 {
            proof {
                assert(out@ =~= format_spec(self.0));
            }
        } else {
            proof {
                reveal_strlit(".");
            }
            out.append(".");
            out.append(digit_str(p / 1000));
            out.append(digit_str(p / 100 % 10));
            out.append(digit_str(p / 10 % 10));
            out.append(digit_str(p % 10));
            proof {
                assert(out@ =~= format_spec(self.0));
            }
        }
        out
    }

    /// True exactly when the amount is zero.
    pub fn is_zero(&self) -> (r: bool)
        ensures
            r == (self.0 == 0),
    {
        self.0 == 0
    }

    /// Sum of two amounts.  The caller must know that the sum fits; the
    /// ledger checks sufficiency before every addition.
    pub fn add(self, other: Amount) -> (r: Amount)
        requires
            self.0 + other.0 <= u64::MAX,
        ensures
            r.0 == self.0 + other.0,
    {
        Amount(self.0 + other.0)
    }

    /// Difference of two amounts.  The caller must know that the result is
    /// not negative; the ledger checks sufficiency before every subtraction.
    pub fn sub(self, other: Amount) -> (r: Amount)
        requires
            other.0 <= self.0,
        ensures
            r.0 == self.0 - other.0,
    {
        Amount(self.0 - other.0)
    }
}

/// The shortest decimal rendering really is a digit run denoting its input.
pub proof fn lemma_dec_digits_spell(n: nat)
    ensures
        dec_digits(n).len() >= 1,
        all_digits(dec_digits(n)),
        digits_val(dec_digits(n)) == n,
    decreases n,
{
    assert(digits_val(Seq::<char>::empty()) == 0);
    if n < 10 {
        let s = dec_digits(n);
        assert(s =~= seq![digit_char(n as int)]);
        assert(s.drop_last() =~= Seq::<char>::empty());
        assert(digits_val(s) == digits_val(s.drop_last()) * 10 + digit_val(s.last()));
        assert(digit_val(digit_char(n as int)) == n);
    } else {
        lemma_dec_digits_spell(n / 10);
        let s = dec_digits(n);
        assert(s.drop_last() =~= dec_digits(n / 10));
        assert(s.last() == digit_char((n % 10) as int));
        assert(digits_val(s) == digits_val(s.drop_last()) * 10 + digit_val(s.last()));
        assert(digit_val(digit_char((n % 10) as int)) == n % 10);
        assert forall|k: int| 0 <= k < s.len() implies is_digit(#[trigger] s[k]) by {
            if k < s.len() - 1 {
                assert(is_digit(dec_digits(n / 10)[k]));
            }
        }
    }
}

/// The four-digit padded rendering of `p` in `[0, 10000)` denotes `p`.
pub proof fn lemma_pad4_val(p: int)
    requires
        0 <= p < 10000,
    ensures
        pad4(p).len() == 4,
        all_digits(pad4(p)),
        digits_val(pad4(p)) == p,
{
    let q = pad4(p);
    vstd::arithmetic::div_mod::lemma_div_denominator(p, 100, 10);
    vstd::arithmetic::div_mod::lemma_div_denominator(p, 10, 10);
    let s3 = seq![digit_char(p / 1000), digit_char(p / 100 % 10), digit_char(p / 10 % 10)];
    let s2 = seq![digit_char(p / 1000), digit_char(p / 100 % 10)];
    let s1 = seq![digit_char(p / 1000)];
    assert(digits_val(Seq::<char>::empty()) == 0);
    assert(s1.drop_last() =~= Seq::<char>::empty());
    assert(digits_val(s1) == digits_val(s1.drop_last()) * 10 + digit_val(s1.last()));
    assert(digit_val(digit_char(p / 1000)) == p / 1000);
    assert(s2.drop_last() =~= s1);
    assert(digits_val(s2) == digits_val(s2.drop_last()) * 10 + digit_val(s2.last()));
    assert(digit_val(digit_char(p / 100 % 10)) == p / 100 % 10);
    assert(p / 1000 * 10 + p / 100 % 10 == p / 100);
    assert(s3.drop_last() =~= s2);
    assert(digits_val(s3) == digits_val(s3.drop_last()) * 10 + digit_val(s3.last()));
    assert(digit_val(digit_char(p / 10 % 10)) == p / 10 % 10);
    assert(p / 100 * 10 + p / 10 % 10 == p / 10);
    assert(q.drop_last() =~= s3);
    assert(digits_val(q) == digits_val(q.drop_last()) * 10 + digit_val(q.last()));
    assert(digit_val(digit_char(p % 10)) == p % 10);
    assert(p / 10 * 10 + p % 10 == p);
}

/// Round trip: rendering any amount and parsing the text yields the amount
/// back, exactly.
pub proof fn lemma_parse_format_roundtrip(v: u64)
    ensures
        valid_amount_text(format_spec(v)),
        amount_value(format_spec(v)) == v,
{
    let s = format_spec(v);
    let whole = (v / 10000) as nat;
    lemma_dec_digits_spell(whole);
    if v % 10000 == 0 {
        assert(s =~= dec_digits(whole));
        assert(digits_val(s) * 10000 == v);
    } else {
        let p = v as int % 10000;
        let pre = dec_digits(whole);
        let i = pre.len() as int;
        lemma_pad4_val(p);
        assert(s[i] == '.');
        assert(s.take(i) =~= pre);
        assert(s.skip(i + 1) =~= pad4(p));
        assert(split_at_dot(s, i));
        lemma_amount_value_at(s, i);
        assert(pad4(p).take(4) =~= pad4(p));
        assert(frac_val(s.skip(i + 1)) == p);
        assert(amount_value(s) == whole * 10000 + p);
    }
}

/// Dust is discarded: appending extra digits after four fractional digits
/// leaves a text valid and leaves its value untouched.
pub proof fn lemma_dust_discarded(pre: Seq<char>, post: Seq<char>, dust: Seq<char>)
    requires
        pre.len() > 0,
        all_digits(pre),
        post.len() == 4,
        all_digits(post),
        all_digits(dust),
    ensures
        ({
            let s = pre + seq!['.'] + post + dust;
            valid_amount_text(s) && amount_value(s) == digits_val(pre) * 10000 + digits_val(post)
        }),
{
    let s = pre + seq!['.'] + post + dust;
    let i = pre.len() as int;
    assert(s[i] == '.');
    assert(s.take(i) =~= pre);
    assert(s.skip(i + 1) =~= post + dust);
    assert forall|k: int| 0 <= k < (post + dust).len() implies is_digit(#[trigger] (post
        + dust)[k]) by {
        if k < post.len() {
            assert(is_digit(post[k]));
        } else {
            assert(is_digit(dust[k - post.len()]));
        }
    }
    assert(split_at_dot(s, i));
    lemma_amount_value_at(s, i);
    assert((post + dust).take(4) =~= post);
}

} // verus!
