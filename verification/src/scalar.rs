//! The scalar codec: primitive values to and from their canonical text
//! form.  Integers use standard decimal text, booleans `true`/`false`,
//! characters stand as themselves, and byte buffers are base64-encoded.

use vstd::prelude::*;
use vstd::arithmetic::div_mod::lemma_fundamental_div_mod;

use crate::error::{leaf_error, wrapped_error, Error, ErrorModel};
use crate::text::str_equal;

verus! {

// ------------------------------------------------------------------
// decimal digits
// ------------------------------------------------------------------

/// The character for one decimal digit.
pub open spec fn digit_char(d: nat) -> char {
    if d == 0 {
        '0'
    } else if d == 1 {
        '1'
    } else if d == 2 {
        '2'
    } else if d == 3 {
        '3'
    } else if d == 4 {
        '4'
    } else if d == 5 {
        '5'
    } else if d == 6 {
        '6'
    } else if d == 7 {
        '7'
    } else if d == 8 {
        '8'
    } else {
        '9'
    }
}

pub open spec fn is_digit(c: char) -> bool {
    48 <= c as u32 <= 57
}

pub open spec fn digit_val(c: char) -> nat {
    (c as u32 - 48) as nat
}

/// The decimal digits of `n`, most significant first, with no sign and no
/// leading zero (except for `n == 0` itself).
pub open spec fn dec_digits(n: nat) -> Seq<char>
    decreases n,
{
    if n < 10 {
        seq![digit_char(n)]
    } else {
        dec_digits(n / 10).push(digit_char(n % 10))
    }
}

pub open spec fn all_digits(s: Seq<char>) -> bool {
    forall|i: int| 0 <= i < s.len() ==> is_digit(#[trigger] s[i])
}

/// The numeric value of a digit string, read most significant first.
pub open spec fn dec_val(s: Seq<char>) -> nat
    decreases s.len(),
{
    if s.len() == 0 {
        0
    } else {
        dec_val(s.drop_last()) * 10 + digit_val(s.last())
    }
}

/// An unsigned decimal literal: one or more digits, nothing else.
pub open spec fn spec_parse_nat(s: Seq<char>) -> Option<nat> {
    if s.len() > 0 && all_digits(s) {
        Some(dec_val(s))
    } else {
        None
    }
}

/// The digits of an unsigned literal: what stands after an optional
/// leading `+`.
pub open spec fn uint_body(s: Seq<char>) -> Seq<char> {
    if s.len() > 0 && s[0] == '+' {
        s.drop_first()
    } else {
        s
    }
}

/// The digits of a signed literal: what stands after an optional leading
/// `-` or `+`.
pub open spec fn int_body(s: Seq<char>) -> Seq<char> {
    if s.len() > 0 && (s[0] == '-' || s[0] == '+') {
        s.drop_first()
    } else {
        s
    }
}

/// An unsigned decimal literal: an optional leading `+`, then one or
/// more digits, nothing else.
pub open spec fn spec_parse_uint(s: Seq<char>) -> Option<nat> {
    spec_parse_nat(uint_body(s))
}

/// A signed decimal literal: an optional leading `-` or `+`, then one or
/// more digits, nothing else.
pub open spec fn spec_parse_int(s: Seq<char>) -> Option<int> {
    if s.len() > 0 && s[0] == '-' {
        match spec_parse_nat(s.drop_first()) {
            Option::Some(n) => Option::Some(-(n as int)),
            Option::None => Option::None,
        }
    } else {
        match spec_parse_nat(uint_body(s)) {
            Option::Some(n) => Option::Some(n as int),
            Option::None => Option::None,
        }
    }
}

/// The first failure a left-to-right scan of a digit body hits at or
/// after position `i`: a non-digit character, or a value that no longer
/// fits `u128`.  Meaningful only where such a failure exists.
pub open spec fn nat_scan_error(s: Seq<char>, i: int) -> Seq<char>
    decreases s.len() - i,
{
    if i < 0 || i >= s.len() {
        "invalid digit in numeric literal"@
    } else if !is_digit(s[i]) {
        "invalid digit in numeric literal"@
    } else if dec_val(s.take(i + 1)) > u128::MAX {
        "numeric literal too large"@
    } else {
        nat_scan_error(s, i + 1)
    }
}

/// The message of a failed unsigned-digits parse: empty input, or the
/// first scan failure.
pub open spec fn nat_text_error(s: Seq<char>) -> Seq<char> {
    if s.len() == 0 {
        "empty numeric literal"@
    } else {
        nat_scan_error(s, 0)
    }
}

/// The message of a failed bounded unsigned parse.
pub open spec fn spec_unsigned_error(s: Seq<char>) -> Seq<char> {
    let body = uint_body(s);
    if body.len() == 0 {
        "empty numeric literal"@
    } else if !all_digits(body) || dec_val(body) > u128::MAX {
        nat_scan_error(body, 0)
    } else {
        "numeric literal out of range"@
    }
}

/// The message of a failed bounded signed parse.
pub open spec fn spec_signed_error(s: Seq<char>) -> Seq<char> {
    let body = int_body(s);
    if body.len() == 0 {
        "empty numeric literal"@
    } else if !all_digits(body) || dec_val(body) > u128::MAX {
        nat_scan_error(body, 0)
    } else {
        "numeric literal out of range"@
    }
}

pub proof fn lemma_digit_char(d: nat)
    requires
        d < 10,
    ensures
        is_digit(digit_char(d)),
        digit_val(digit_char(d)) == d,
{
}

/// The digits of a number are digits, at least one of them, and they are
/// wire-safe: no digit is `&`, `=` or `-`.
pub proof fn lemma_dec_digits_shape(n: nat)
    ensures
        dec_digits(n).len() >= 1,
        all_digits(dec_digits(n)),
    decreases n,
{
    if n < 10 {
        lemma_digit_char(n);
    } else {
        lemma_dec_digits_shape(n / 10);
        lemma_digit_char(n % 10);
    }
}

/// Reading the digits of `n` back yields `n`.
pub proof fn lemma_dec_digits_val(n: nat)
    ensures
        dec_val(dec_digits(n)) == n,
    decreases n,
{
    if n < 10 {
        lemma_digit_char(n);
        assert(dec_digits(n) == seq![digit_char(n)]);
        assert(dec_digits(n).drop_last() =~= Seq::<char>::empty());
        assert(dec_digits(n).last() == digit_char(n));
        assert(dec_val(dec_digits(n)) == dec_val(Seq::<char>::empty()) * 10 + digit_val(
            digit_char(n),
        ));
        assert(dec_val(Seq::<char>::empty()) == 0);
        assert(dec_val(dec_digits(n)) == n);
    } else {
        lemma_dec_digits_val(n / 10);
        lemma_digit_char(n % 10);
        lemma_dec_digits_shape(n / 10);
        assert(dec_digits(n) == dec_digits(n / 10).push(digit_char(n % 10)));
        assert(dec_digits(n).drop_last() =~= dec_digits(n / 10));
        assert(dec_digits(n).last() == digit_char(n % 10));
        assert(dec_val(dec_digits(n)) == dec_val(dec_digits(n / 10)) * 10 + digit_val(
            digit_char(n % 10),
        ));
        lemma_fundamental_div_mod(n as int, 10);
        assert(n == 10 * (n / 10) + n % 10);
    }
}

/// A longer digit string never has a smaller value: the value of a prefix
/// is at most the value of the whole.
pub proof fn lemma_dec_val_prefix(s: Seq<char>, k: int)
    requires
        0 <= k <= s.len(),
    ensures
        dec_val(s.take(k)) <= dec_val(s),
    decreases s.len() - k,
{
    if k == s.len() {
        assert(s.take(k) =~= s);
    } else {
        lemma_dec_val_prefix(s, k + 1);
        assert(s.take(k + 1).drop_last() =~= s.take(k));
        assert(dec_val(s.take(k + 1)) == dec_val(s.take(k)) * 10 + digit_val(s.take(k + 1).last()));
    }
}

// ------------------------------------------------------------------
// executable integer codec
// ------------------------------------------------------------------

fn digit_str(d: u8) -> (r: &'static str)
    requires
        d < 10,
    ensures
        r@ == seq![digit_char(d as nat)],
{
    match d {
        0 => {
            proof {
                reveal_strlit("0");
                assert("0"@ =~= seq![digit_char(0)]);
            }
            "0"
        },
        1 => {
            proof {
                reveal_strlit("1");
                assert("1"@ =~= seq![digit_char(1)]);
            }
            "1"
        },
        2 => {
            proof {
                reveal_strlit("2");
                assert("2"@ =~= seq![digit_char(2)]);
            }
            "2"
        },
        3 => {
            proof {
                reveal_strlit("3");
                assert("3"@ =~= seq![digit_char(3)]);
            }
            "3"
        },
        4 => {
            proof {
                reveal_strlit("4");
                assert("4"@ =~= seq![digit_char(4)]);
            }
            "4"
        },
        5 => {
            proof {
                reveal_strlit("5");
                assert("5"@ =~= seq![digit_char(5)]);
            }
            "5"
        },
        6 => {
            proof {
                reveal_strlit("6");
                assert("6"@ =~= seq![digit_char(6)]);
            }
            "6"
        },
        7 => {
            proof {
                reveal_strlit("7");
                assert("7"@ =~= seq![digit_char(7)]);
            }
            "7"
        },
        8 => {
            proof {
                reveal_strlit("8");
                assert("8"@ =~= seq![digit_char(8)]);
            }
            "8"
        },
        _ => {
            proof {
                reveal_strlit("9");
                assert("9"@ =~= seq![digit_char(9)]);
            }
            "9"
        },
    }
}

/// The decimal text of an unsigned number.
pub fn nat_to_text(n: u128) -> (r: String)
    ensures
        r@ == dec_digits(n as nat),
    decreases n,
{
    if n < 10 {
        let r = String::from_str(digit_str(n as u8));
        proof {
            assert(r@ =~= dec_digits(n as nat));
        }
        r
    } else {
        let mut s = nat_to_text(n / 10);
        s.append(digit_str((n % 10) as u8));
        proof {
            assert(s@ =~= dec_digits(n as nat));
        }
        s
    }
}

/// Parses the suffix of `s` starting at `from` as an unsigned decimal
/// literal.  Fails on empty input, on any non-digit character, and on a
/// value too large for `u128`; the message names the first failure a
/// left-to-right scan hits.
pub fn parse_nat_text(s: &str, from: usize) -> (r: Result<u128, Error>)
    requires
        from as int <= s@.len(),
    ensures
        match r {
            Result::Ok(n) => spec_parse_nat(s@.skip(from as int)) == Option::Some(n as nat),
            Result::Err(e) => (spec_parse_nat(s@.skip(from as int)) is None || (spec_parse_nat(
                s@.skip(from as int),
            ) matches Option::Some(v) && v > u128::MAX)) && e.message@ == nat_text_error(
                s@.skip(from as int),
            ) && e.cause is None,
        },
{
    let ghost suffix = s@.skip(from as int);
    let n = s.unicode_len();
    if from == n {
        proof {
            assert(suffix.len() == 0);
        }
        return Result::Err(Error::new("empty numeric literal", Option::None));
    }
    let mut acc: u128 = 0;
    let mut i: usize = from;
    while i < n
        invariant
            from <= i <= n,
            n == s@.len(),
            suffix == s@.skip(from as int),
            all_digits(s@.subrange(from as int, i as int)),
            acc as nat == dec_val(s@.subrange(from as int, i as int)),
            nat_scan_error(suffix, 0) == nat_scan_error(suffix, i - from),
        decreases n - i,
    {
        let c = s.get_char(i);
        let cv = c as u32;
        proof {
            assert(suffix[i - from] == c);
        }
        if cv < 48 || cv > 57 {
            proof {
                assert(!all_digits(suffix));
                assert(nat_scan_error(suffix, i - from) == "invalid digit in numeric literal"@);
            }
            return Result::Err(Error::new("invalid digit in numeric literal", Option::None));
        }
        let d = (cv - 48) as u128;
        let overflowed: bool;
        match acc.checked_mul(10) {
            Option::Some(x) => {
                match x.checked_add(d) {
                    Option::Some(y) => {
                        acc = y;
                        overflowed = false;
                    },
                    Option::None => {
                        overflowed = true;
                    },
                }
            },
            Option::None => {
                overflowed = true;
            },
        }
        proof {
            assert(s@.subrange(from as int, i as int + 1).drop_last() =~= s@.subrange(
                from as int,
                i as int,
            ));
            assert(s@.subrange(from as int, i as int + 1).last() == c);
            assert(suffix.take(i - from + 1) =~= s@.subrange(from as int, i as int + 1));
        }
        if overflowed {
            proof {
                assert(dec_val(suffix.take(i - from + 1)) > u128::MAX);
                assert(nat_scan_error(suffix, i - from) == "numeric literal too large"@);
                // every extension of the digits seen so far is at least as
                // large as their value, which no longer fits
                if all_digits(suffix) {
                    lemma_dec_val_prefix(suffix, i - from + 1);
                    assert(dec_val(suffix) > u128::MAX);
                }
            }
            return Result::Err(Error::new("numeric literal too large", Option::None));
        }
        proof {
            assert(dec_val(suffix.take(i - from + 1)) <= u128::MAX);
            assert(nat_scan_error(suffix, i - from) == nat_scan_error(suffix, i - from + 1));
        }
        i = i + 1;
    }
    proof {
        assert(suffix =~= s@.subrange(from as int, n as int));
        assert(suffix.len() > 0);
    }
    Result::Ok(acc)
}

/// The decimal text of a signed value: a `-` sign for negatives, then the
/// digits of the magnitude.
pub open spec fn int_text(v: int) -> Seq<char> {
    if v < 0 {
        seq!['-'] + dec_digits((-v) as nat)
    } else {
        dec_digits(v as nat)
    }
}

pub fn int_to_text(v: i128) -> (r: String)
    ensures
        r@ == int_text(v as int),
{
    if v >= 0 {
        nat_to_text(v as u128)
    } else {
        let mag: u128 = ((-(v + 1)) as u128) + 1;
        proof {
            assert(mag as int == -(v as int));
        }
        let mut s = String::from_str("-");
        let digits = nat_to_text(mag);
        s.append(digits.as_str());
        proof {
            reveal_strlit("-");
            assert("-"@ =~= seq!['-']);
            assert(s@ =~= int_text(v as int));
        }
        s
    }
}

/// Parses a signed decimal literal (optional `-` or `+` sign) into a
/// sign and a magnitude.
pub fn parse_int_text(s: &str) -> (r: Result<(bool, u128), Error>)
    ensures
        match r {
            Result::Ok(p) => spec_parse_int(s@) == Option::Some(
                if p.0 {
                    -(p.1 as int)
                } else {
                    p.1 as int
                },
            ) && p.1 as nat == dec_val(int_body(s@)),
            Result::Err(e) => (spec_parse_int(s@) is None || (spec_parse_int(
                s@,
            ) matches Option::Some(v) && (v > u128::MAX || v < -(u128::MAX as int))))
                && e.message@ == nat_text_error(int_body(s@)) && e.cause is None,
        },
{
    let n = s.unicode_len();
    let negative = n > 0 && s.get_char(0) == '-';
    let signed = negative || (n > 0 && s.get_char(0) == '+');
    let from: usize = if signed {
        1
    } else {
        0
    };
    proof {
        if signed {
            assert(s@.skip(1) =~= s@.drop_first());
        } else {
            assert(s@.skip(0) =~= s@);
        }
        assert(s@.skip(from as int) == int_body(s@));
    }
    let r = parse_nat_text(s, from);
    match r {
        Result::Ok(mag) => {
            proof {
                assert(dec_val(int_body(s@)) == mag as nat);
            }
            Result::Ok((negative, mag))
        },
        Result::Err(e) => Result::Err(e),
    }
}

/// Parses an unsigned decimal literal (optional `+` sign) and checks it
/// against `max`.
pub fn parse_in_range_u(text: &str, max: u128) -> (r: Result<u128, Error>)
    ensures
        match r {
            Result::Ok(v) => spec_parse_uint(text@) == Option::Some(v as nat) && v <= max,
            Result::Err(e) => (spec_parse_uint(text@) is None || (spec_parse_uint(
                text@,
            ) matches Option::Some(v) && v > max)) && e.message@ == spec_unsigned_error(text@)
                && e.cause is None,
        },
{
    let n = text.unicode_len();
    let from: usize = if n > 0 && text.get_char(0) == '+' {
        1
    } else {
        0
    };
    proof {
        if from == 1 {
            assert(text@.skip(1) =~= text@.drop_first());
        } else {
            assert(text@.skip(0) =~= text@);
        }
        assert(text@.skip(from as int) == uint_body(text@));
    }
    let r = parse_nat_text(text, from);
    match r {
        Result::Ok(v) => {
            if v <= max {
                Result::Ok(v)
            } else {
                proof {
                    assert(dec_val(uint_body(text@)) == v as nat);
                }
                Result::Err(Error::new("numeric literal out of range", Option::None))
            }
        },
        Result::Err(e) => {
            proof {
                let body = uint_body(text@);
                if body.len() > 0 {
                    assert(spec_unsigned_error(text@) == nat_scan_error(body, 0));
                }
            }
            Result::Err(e)
        },
    }
}

/// Parses a signed decimal literal and checks it against the width's
/// bounds, given as magnitudes: the value must lie in
/// `-neg_limit ..= pos_limit`.
pub fn parse_in_range_i(text: &str, neg_limit: u128, pos_limit: u128) -> (r: Result<i128, Error>)
    requires
        neg_limit <= 0x8000_0000_0000_0000_0000_0000_0000_0000u128,
        pos_limit <= 0x7fff_ffff_ffff_ffff_ffff_ffff_ffff_ffffu128,
    ensures
        match r {
            Result::Ok(v) => spec_parse_int(text@) == Option::Some(v as int) && -(neg_limit as int)
                <= v as int <= pos_limit as int,
            Result::Err(e) => (spec_parse_int(text@) is None || (spec_parse_int(
                text@,
            ) matches Option::Some(v) && !(-(neg_limit as int) <= v <= pos_limit as int)))
                && e.message@ == spec_signed_error(text@) && e.cause is None,
        },
{
    match parse_int_text(text) {
        Result::Ok((neg, mag)) => {
            proof {
                let body = int_body(text@);
                assert(body.len() > 0 && all_digits(body));
                assert(dec_val(body) == mag as nat);
                assert(spec_signed_error(text@) == "numeric literal out of range"@);
            }
            if neg {
                if mag > neg_limit {
                    Result::Err(Error::new("numeric literal out of range", Option::None))
                } else if mag == 0 {
                    Result::Ok(0)
                } else {
                    let m1 = (mag - 1) as i128;
                    Result::Ok(-m1 - 1)
                }
            } else {
                if mag > pos_limit {
                    Result::Err(Error::new("numeric literal out of range", Option::None))
                } else {
                    Result::Ok(mag as i128)
                }
            }
        },
        Result::Err(e) => {
            proof {
                let body = int_body(text@);
                if body.len() > 0 {
                    assert(spec_signed_error(text@) == nat_scan_error(body, 0));
                }
            }
            Result::Err(e)
        },
    }
}

// ------------------------------------------------------------------
// scalars
// ------------------------------------------------------------------

/// A primitive wire value.
#[derive(Debug, Clone, PartialEq, Eq)]
pub enum Scalar {
    Bool(bool),
    I8(i8),
    I16(i16),
    I32(i32),
    I64(i64),
    I128(i128),
    U8(u8),
    U16(u16),
    U32(u32),
    U64(u64),
    U128(u128),
    Char(char),
    Str(String),
    Bytes(Vec<u8>),
}

/// The primitive kind a shape can ask the decoder for.
#[derive(Debug, Clone, Copy, PartialEq, Eq)]
pub enum ScalarKind {
    Bool,
    I8,
    I16,
    I32,
    I64,
    I128,
    U8,
    U16,
    U32,
    U64,
    U128,
    Char,
    Str,
    Bytes,
}

/// The mathematical value of a [`Scalar`]: the same shape, with text as a
/// sequence of characters and a byte buffer as a sequence of bytes.
pub enum ScalarModel {
    Bool(bool),
    I8(i8),
    I16(i16),
    I32(i32),
    I64(i64),
    I128(i128),
    U8(u8),
    U16(u16),
    U32(u32),
    U64(u64),
    U128(u128),
    Char(char),
    Str(Seq<char>),
    Bytes(Seq<u8>),
}

impl Scalar {
    pub open spec fn model(self) -> ScalarModel {
        match self {
            Scalar::Bool(b) => ScalarModel::Bool(b),
            Scalar::I8(v) => ScalarModel::I8(v),
            Scalar::I16(v) => ScalarModel::I16(v),
            Scalar::I32(v) => ScalarModel::I32(v),
            Scalar::I64(v) => ScalarModel::I64(v),
            Scalar::I128(v) => ScalarModel::I128(v),
            Scalar::U8(v) => ScalarModel::U8(v),
            Scalar::U16(v) => ScalarModel::U16(v),
            Scalar::U32(v) => ScalarModel::U32(v),
            Scalar::U64(v) => ScalarModel::U64(v),
            Scalar::U128(v) => ScalarModel::U128(v),
            Scalar::Char(c) => ScalarModel::Char(c),
            Scalar::Str(s) => ScalarModel::Str(s@),
            Scalar::Bytes(b) => ScalarModel::Bytes(b@),
        }
    }

    /// A scalar the encoder can render: byte buffers are bounded so that
    /// the base64 text length fits in memory.
    pub open spec fn wf(self) -> bool {
        match self {
            Scalar::Bytes(b) => b@.len() <= 0x1000_0000_0000_0000,
            _ => true,
        }
    }
}

pub open spec fn model_kind(m: ScalarModel) -> ScalarKind {
    match m {
        ScalarModel::Bool(_) => ScalarKind::Bool,
        ScalarModel::I8(_) => ScalarKind::I8,
        ScalarModel::I16(_) => ScalarKind::I16,
        ScalarModel::I32(_) => ScalarKind::I32,
        ScalarModel::I64(_) => ScalarKind::I64,
        ScalarModel::I128(_) => ScalarKind::I128,
        ScalarModel::U8(_) => ScalarKind::U8,
        ScalarModel::U16(_) => ScalarKind::U16,
        ScalarModel::U32(_) => ScalarKind::U32,
        ScalarModel::U64(_) => ScalarKind::U64,
        ScalarModel::U128(_) => ScalarKind::U128,
        ScalarModel::Char(_) => ScalarKind::Char,
        ScalarModel::Str(_) => ScalarKind::Str,
        ScalarModel::Bytes(_) => ScalarKind::Bytes,
    }
}

// ------------------------------------------------------------------
// base64 for byte buffers
// ------------------------------------------------------------------

/// The RFC 4648 standard base64 text of a byte sequence, with padding and
/// no line wrapping.  The text is a function of the bytes alone; what it
/// is on given bytes is known only to the encoder relied on below.
pub uninterp spec fn base64_of(bytes: Seq<u8>) -> Seq<char>;

/// Relies on base64's `Engine::encode` with the `STANDARD` engine: the
/// result is standard base64 text with padding, a deterministic function
/// of the input bytes.  The length bound keeps the engine's output-size
/// calculation from overflowing.
#[verifier::external_body]
fn base64_encode(bytes: &Vec<u8>) -> (r: String)
    requires
        bytes@.len() <= 0x1000_0000_0000_0000,
    ensures
        r@ == base64_of(bytes@),
{
    base64::Engine::encode(&base64::prelude::BASE64_STANDARD, bytes.as_slice())
}

// ------------------------------------------------------------------
// scalar encode
// ------------------------------------------------------------------

/// The canonical text of a scalar value.
pub open spec fn scalar_text(m: ScalarModel) -> Seq<char> {
    match m {
        ScalarModel::Bool(b) => if b {
            "true"@
        } else {
            "false"@
        },
        ScalarModel::I8(v) => int_text(v as int),
        ScalarModel::I16(v) => int_text(v as int),
        ScalarModel::I32(v) => int_text(v as int),
        ScalarModel::I64(v) => int_text(v as int),
        ScalarModel::I128(v) => int_text(v as int),
        ScalarModel::U8(v) => dec_digits(v as nat),
        ScalarModel::U16(v) => dec_digits(v as nat),
        ScalarModel::U32(v) => dec_digits(v as nat),
        ScalarModel::U64(v) => dec_digits(v as nat),
        ScalarModel::U128(v) => dec_digits(v as nat),
        ScalarModel::Char(c) => seq![c],
        ScalarModel::Str(t) => t,
        ScalarModel::Bytes(b) => base64_of(b),
    }
}

/// Relies on `char`'s `ToString`: the text of one character is exactly
/// that character.
#[verifier::external_body]
fn char_to_string(c: char) -> (r: String)
    ensures
        r@ == seq![c],
{
    c.to_string()
}

/// Renders a scalar in its canonical text form.
pub fn scalar_to_text(s: &Scalar) -> (r: String)
    requires
        s.wf(),
    ensures
        r@ == scalar_text(s.model()),
{
    match s {
        Scalar::Bool(b) => {
            if *b {
                String::from_str("true")
            } else {
                String::from_str("false")
            }
        },
        Scalar::I8(v) => int_to_text(*v as i128),
        Scalar::I16(v) => int_to_text(*v as i128),
        Scalar::I32(v) => int_to_text(*v as i128),
        Scalar::I64(v) => int_to_text(*v as i128),
        Scalar::I128(v) => int_to_text(*v),
        Scalar::U8(v) => nat_to_text(*v as u128),
        Scalar::U16(v) => nat_to_text(*v as u128),
        Scalar::U32(v) => nat_to_text(*v as u128),
        Scalar::U64(v) => nat_to_text(*v as u128),
        Scalar::U128(v) => nat_to_text(*v),
        Scalar::Char(c) => char_to_string(*c),
        Scalar::Str(t) => t.clone(),
        Scalar::Bytes(b) => base64_encode(b),
    }
}

// ------------------------------------------------------------------
// scalar decode
// ------------------------------------------------------------------

/// What decoding text at a requested kind yields: the scalar on success,
/// nothing on a malformed or out-of-range literal.  Byte buffers are not
/// decoded: that capability is not part of the decoder.
pub open spec fn spec_decode_scalar(k: ScalarKind, t: Seq<char>) -> Option<ScalarModel> {
    match k {
        ScalarKind::Bool => if t == "true"@ {
            Option::Some(ScalarModel::Bool(true))
        } else if t == "false"@ {
            Option::Some(ScalarModel::Bool(false))
        } else {
            Option::None
        },
        ScalarKind::I8 => match spec_parse_int(t) {
            Option::Some(v) => if i8::MIN <= v <= i8::MAX {
                Option::Some(ScalarModel::I8(v as i8))
            } else {
                Option::None
            },
            Option::None => Option::None,
        },
        ScalarKind::I16 => match spec_parse_int(t) {
            Option::Some(v) => if i16::MIN <= v <= i16::MAX {
                Option::Some(ScalarModel::I16(v as i16))
            } else {
                Option::None
            },
            Option::None => Option::None,
        },
        ScalarKind::I32 => match spec_parse_int(t) {
            Option::Some(v) => if i32::MIN <= v <= i32::MAX {
                Option::Some(ScalarModel::I32(v as i32))
            } else {
                Option::None
            },
            Option::None => Option::None,
        },
        ScalarKind::I64 => match spec_parse_int(t) {
            Option::Some(v) => if i64::MIN <= v <= i64::MAX {
                Option::Some(ScalarModel::I64(v as i64))
            } else {
                Option::None
            },
            Option::None => Option::None,
        },
        ScalarKind::I128 => match spec_parse_int(t) {
            Option::Some(v) => if i128::MIN <= v <= i128::MAX {
                Option::Some(ScalarModel::I128(v as i128))
            } else {
                Option::None
            },
            Option::None => Option::None,
        },
        ScalarKind::U8 => match spec_parse_uint(t) {
            Option::Some(v) => if v <= u8::MAX {
                Option::Some(ScalarModel::U8(v as u8))
            } else {
                Option::None
            },
            Option::None => Option::None,
        },
        ScalarKind::U16 => match spec_parse_uint(t) {
            Option::Some(v) => if v <= u16::MAX {
                Option::Some(ScalarModel::U16(v as u16))
            } else {
                Option::None
            },
            Option::None => Option::None,
        },
        ScalarKind::U32 => match spec_parse_uint(t) {
            Option::Some(v) => if v <= u32::MAX {
                Option::Some(ScalarModel::U32(v as u32))
            } else {
                Option::None
            },
            Option::None => Option::None,
        },
        ScalarKind::U64 => match spec_parse_uint(t) {
            Option::Some(v) => if v <= u64::MAX {
                Option::Some(ScalarModel::U64(v as u64))
            } else {
                Option::None
            },
            Option::None => Option::None,
        },
        ScalarKind::U128 => match spec_parse_uint(t) {
            Option::Some(v) => if v <= u128::MAX {
                Option::Some(ScalarModel::U128(v as u128))
            } else {
                Option::None
            },
            Option::None => Option::None,
        },
        ScalarKind::Char => if t.len() == 1 {
            Option::Some(ScalarModel::Char(t[0]))
        } else {
            Option::None
        },
        ScalarKind::Str => Option::Some(ScalarModel::Str(t)),
        ScalarKind::Bytes => Option::None,
    }
}

/// The message of the error that a failed scalar decode carries.
pub open spec fn literal_error_message(k: ScalarKind) -> Seq<char> {
    match k {
        ScalarKind::Bool => "invalid bool literal"@,
        ScalarKind::I8 => "invalid i8 literal"@,
        ScalarKind::I16 => "invalid i16 literal"@,
        ScalarKind::I32 => "invalid i32 literal"@,
        ScalarKind::I64 => "invalid i64 literal"@,
        ScalarKind::I128 => "invalid i128 literal"@,
        ScalarKind::U8 => "invalid u8 literal"@,
        ScalarKind::U16 => "invalid u16 literal"@,
        ScalarKind::U32 => "invalid u32 literal"@,
        ScalarKind::U64 => "invalid u64 literal"@,
        ScalarKind::U128 => "invalid u128 literal"@,
        ScalarKind::Char => "invalid char literal"@,
        ScalarKind::Str => "invalid string literal"@,
        ScalarKind::Bytes => "unsupported scalar kind"@,
    }
}

/// The whole error a failed scalar decode carries: the kind's literal
/// message, wrapping the underlying parse failure where there is one.
pub open spec fn scalar_decode_error(k: ScalarKind, t: Seq<char>) -> ErrorModel {
    match k {
        ScalarKind::Bool => wrapped_error(
            literal_error_message(k),
            leaf_error("expected true or false"@),
        ),
        ScalarKind::I8 => wrapped_error(literal_error_message(k), leaf_error(spec_signed_error(t))),
        ScalarKind::I16 => wrapped_error(
            literal_error_message(k),
            leaf_error(spec_signed_error(t)),
        ),
        ScalarKind::I32 => wrapped_error(
            literal_error_message(k),
            leaf_error(spec_signed_error(t)),
        ),
        ScalarKind::I64 => wrapped_error(
            literal_error_message(k),
            leaf_error(spec_signed_error(t)),
        ),
        ScalarKind::I128 => wrapped_error(
            literal_error_message(k),
            leaf_error(spec_signed_error(t)),
        ),
        ScalarKind::U8 => wrapped_error(
            literal_error_message(k),
            leaf_error(spec_unsigned_error(t)),
        ),
        ScalarKind::U16 => wrapped_error(
            literal_error_message(k),
            leaf_error(spec_unsigned_error(t)),
        ),
        ScalarKind::U32 => wrapped_error(
            literal_error_message(k),
            leaf_error(spec_unsigned_error(t)),
        ),
        ScalarKind::U64 => wrapped_error(
            literal_error_message(k),
            leaf_error(spec_unsigned_error(t)),
        ),
        ScalarKind::U128 => wrapped_error(
            literal_error_message(k),
            leaf_error(spec_unsigned_error(t)),
        ),
        ScalarKind::Char => leaf_error(literal_error_message(k)),
        ScalarKind::Str => leaf_error(literal_error_message(k)),
        ScalarKind::Bytes => leaf_error(literal_error_message(k)),
    }
}

/// Wraps an underlying parse failure in the kind's literal message.
fn literal_error(message: &str, inner: Error) -> (e: Error)
    ensures
        e.model() == wrapped_error(message@, inner.model()),
{
    let e = Error::new(message, Option::Some(Box::new(inner)));
    proof {
        assert(e.model() == wrapped_error(message@, inner.model()));
    }
    e
}

/// Decodes text at the kind a shape requests.  Numeric and boolean
/// failures carry the underlying parse failure as their cause.
pub fn decode_scalar(kind: ScalarKind, text: &str) -> (r: Result<Scalar, Error>)
    ensures
        match r {
            Result::Ok(sc) => spec_decode_scalar(kind, text@) == Option::Some(sc.model())
                && sc.wf(),
            Result::Err(e) => spec_decode_scalar(kind, text@) is None && e.model()
                == scalar_decode_error(kind, text@),
        },
{
    match kind {
        ScalarKind::Bool => {
            if str_equal(text, "true") {
                Result::Ok(Scalar::Bool(true))
            } else if str_equal(text, "false") {
                Result::Ok(Scalar::Bool(false))
            } else {
                Result::Err(
                    literal_error(
                        "invalid bool literal",
                        Error::new("expected true or false", Option::None),
                    ),
                )
            }
        },
        ScalarKind::I8 => {
            match parse_in_range_i(text, 128, 127) {
                Result::Ok(v) => Result::Ok(Scalar::I8(v as i8)),
                Result::Err(e) => Result::Err(literal_error("invalid i8 literal", e)),
            }
        },
        ScalarKind::I16 => {
            match parse_in_range_i(text, 32768, 32767) {
                Result::Ok(v) => Result::Ok(Scalar::I16(v as i16)),
                Result::Err(e) => Result::Err(literal_error("invalid i16 literal", e)),
            }
        },
        ScalarKind::I32 => {
            match parse_in_range_i(text, 0x8000_0000, 0x7fff_ffff) {
                Result::Ok(v) => Result::Ok(Scalar::I32(v as i32)),
                Result::Err(e) => Result::Err(literal_error("invalid i32 literal", e)),
            }
        },
        ScalarKind::I64 => {
            match parse_in_range_i(text, 0x8000_0000_0000_0000, 0x7fff_ffff_ffff_ffff) {
                Result::Ok(v) => Result::Ok(Scalar::I64(v as i64)),
                Result::Err(e) => Result::Err(literal_error("invalid i64 literal", e)),
            }
        },
        ScalarKind::I128 => {
            match parse_in_range_i(
                text,
                0x8000_0000_0000_0000_0000_0000_0000_0000,
                0x7fff_ffff_ffff_ffff_ffff_ffff_ffff_ffff,
            ) {
                Result::Ok(v) => Result::Ok(Scalar::I128(v)),
                Result::Err(e) => Result::Err(literal_error("invalid i128 literal", e)),
            }
        },
        ScalarKind::U8 => {
            match parse_in_range_u(text, 255) {
                Result::Ok(v) => Result::Ok(Scalar::U8(v as u8)),
                Result::Err(e) => Result::Err(literal_error("invalid u8 literal", e)),
            }
        },
        ScalarKind::U16 => {
            match parse_in_range_u(text, 65535) {
                Result::Ok(v) => Result::Ok(Scalar::U16(v as u16)),
                Result::Err(e) => Result::Err(literal_error("invalid u16 literal", e)),
            }
        },
        ScalarKind::U32 => {
            match parse_in_range_u(text, 0xffff_ffff) {
                Result::Ok(v) => Result::Ok(Scalar::U32(v as u32)),
                Result::Err(e) => Result::Err(literal_error("invalid u32 literal", e)),
            }
        },
        ScalarKind::U64 => {
            match parse_in_range_u(text, 0xffff_ffff_ffff_ffff) {
                Result::Ok(v) => Result::Ok(Scalar::U64(v as u64)),
                Result::Err(e) => Result::Err(literal_error("invalid u64 literal", e)),
            }
        },
        ScalarKind::U128 => {
            match parse_in_range_u(text, 0xffff_ffff_ffff_ffff_ffff_ffff_ffff_ffff) {
                Result::Ok(v) => Result::Ok(Scalar::U128(v)),
                Result::Err(e) => Result::Err(literal_error("invalid u128 literal", e)),
            }
        },
        ScalarKind::Char => {
            if text.unicode_len() == 1 {
                Result::Ok(Scalar::Char(text.get_char(0)))
            } else {
                Result::Err(Error::new("invalid char literal", Option::None))
            }
        },
        ScalarKind::Str => Result::Ok(Scalar::Str(text.to_owned())),
        ScalarKind::Bytes => Result::Err(
            Error::new("unsupported scalar kind", Option::None),
        ),
    }
}

// ------------------------------------------------------------------
// round trip
// ------------------------------------------------------------------

/// Parsing the decimal text of a signed value yields that value back.
pub proof fn lemma_parse_int_text(v: int)
    ensures
        spec_parse_int(int_text(v)) == Option::Some(v),
{
    if v < 0 {
        let mag = (-v) as nat;
        lemma_dec_digits_shape(mag);
        lemma_dec_digits_val(mag);
        let t = seq!['-'] + dec_digits(mag);
        assert(t[0] == '-');
        assert(t.drop_first() =~= dec_digits(mag));
    } else {
        lemma_dec_digits_shape(v as nat);
        lemma_dec_digits_val(v as nat);
        let t = dec_digits(v as nat);
        assert(is_digit(t[0]));
        assert(t[0] != '-');
    }
}

/// Decoding the canonical text of a scalar at its own kind yields the
/// same scalar.  Byte buffers are left out: the decoder does not decode
/// them.
pub proof fn lemma_scalar_round_trip(m: ScalarModel)
    requires
        !(m is Bytes),
    ensures
        spec_decode_scalar(model_kind(m), scalar_text(m)) == Option::Some(m),
{
    reveal_strlit("true");
    reveal_strlit("false");
    match m {
        ScalarModel::Bool(b) => {
            assert("true"@.len() == 4);
            assert("false"@.len() == 5);
        },
        ScalarModel::I8(v) => {
            lemma_parse_int_text(v as int);
        },
        ScalarModel::I16(v) => {
            lemma_parse_int_text(v as int);
        },
        ScalarModel::I32(v) => {
            lemma_parse_int_text(v as int);
        },
        ScalarModel::I64(v) => {
            lemma_parse_int_text(v as int);
        },
        ScalarModel::I128(v) => {
            lemma_parse_int_text(v as int);
        },
        ScalarModel::U8(v) => {
            lemma_dec_digits_shape(v as nat);
            lemma_dec_digits_val(v as nat);
        },
        ScalarModel::U16(v) => {
            lemma_dec_digits_shape(v as nat);
            lemma_dec_digits_val(v as nat);
        },
        ScalarModel::U32(v) => {
            lemma_dec_digits_shape(v as nat);
            lemma_dec_digits_val(v as nat);
        },
        ScalarModel::U64(v) => {
            lemma_dec_digits_shape(v as nat);
            lemma_dec_digits_val(v as nat);
        },
        ScalarModel::U128(v) => {
            lemma_dec_digits_shape(v as nat);
            lemma_dec_digits_val(v as nat);
        },
        ScalarModel::Char(c) => {
        },
        ScalarModel::Str(t) => {
        },
        ScalarModel::Bytes(b) => {
        },
    }
}

/// The text of a boolean or numeric scalar is wire-safe: it contains
/// neither `&` nor `=`.
pub proof fn lemma_scalar_text_wf(m: ScalarModel)
    requires
        !(m is Str),
        !(m is Char),
        !(m is Bytes),
    ensures
        crate::text::text_wf(scalar_text(m)),
{
    reveal_strlit("true");
    reveal_strlit("false");
    match m {
        ScalarModel::I8(v) => lemma_int_text_wf(v as int),
        ScalarModel::I16(v) => lemma_int_text_wf(v as int),
        ScalarModel::I32(v) => lemma_int_text_wf(v as int),
        ScalarModel::I64(v) => lemma_int_text_wf(v as int),
        ScalarModel::I128(v) => lemma_int_text_wf(v as int),
        ScalarModel::U8(v) => lemma_dec_digits_wf(v as nat),
        ScalarModel::U16(v) => lemma_dec_digits_wf(v as nat),
        ScalarModel::U32(v) => lemma_dec_digits_wf(v as nat),
        ScalarModel::U64(v) => lemma_dec_digits_wf(v as nat),
        ScalarModel::U128(v) => lemma_dec_digits_wf(v as nat),
        _ => {
        },
    }
}

pub proof fn lemma_dec_digits_wf(n: nat)
    ensures
        crate::text::text_wf(dec_digits(n)),
{
    lemma_dec_digits_shape(n);
}

pub proof fn lemma_int_text_wf(v: int)
    ensures
        crate::text::text_wf(int_text(v)),
{
    if v < 0 {
        lemma_dec_digits_shape((-v) as nat);
        assert forall|i: int| 0 <= i < int_text(v).len() implies int_text(v)[i] != '&'
            && int_text(v)[i] != '=' by {
            if i > 0 {
                assert(is_digit(int_text(v)[i]));
            }
        }
    } else {
        lemma_dec_digits_shape(v as nat);
    }
}

} // verus!


