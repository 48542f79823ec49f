use vstd::prelude::*;

use crate::wish::Sin;

verus! {

/// The byte `b` is an ASCII decimal digit.
pub open spec fn is_digit(b: u8) -> bool {
    48 <= b <= 57
}

/// Every byte of `s` is an ASCII decimal digit.
pub open spec fn all_digits(s: Seq<u8>) -> bool {
    forall|i: int| 0 <= i < s.len() ==> is_digit(#[trigger] s[i])
}

/// The number that the decimal digits `s` spell, most significant first.
pub open spec fn digits_value(s: Seq<u8>) -> nat
    decreases s.len(),
{
    if s.len() == 0 {
        0
    } else {
        digits_value(s.drop_last()) * 10 + (s.last() - 48) as nat
    }
}

/// The shortest decimal spelling of `n`.
pub open spec fn decimal(n: nat) -> Seq<u8>
    decreases n,
{
    if n < 10 {
        seq![(48 + n) as u8]
    } else {
        decimal(n / 10).push((48 + n % 10) as u8)
    }
}

/// The decimal spelling of `i`, with a leading `-` when it is negative.
pub open spec fn signed_decimal(i: int) -> Seq<u8> {
    if i < 0 {
        seq![45u8] + decimal((-i) as nat)
    } else {
        decimal(i as nat)
    }
}

/// `s` spells an unsigned number: at least one digit and nothing else.
pub open spec fn is_numeral(s: Seq<u8>) -> bool {
    s.len() > 0 && all_digits(s)
}

/// The part of `s` after an optional leading `-`.
pub open spec fn magnitude_part(s: Seq<u8>) -> Seq<u8> {
    if s.len() > 0 && s[0] == 45 {
        s.drop_first()
    } else {
        s
    }
}

/// `s` starts with a `-`.
pub open spec fn is_negative(s: Seq<u8>) -> bool {
    s.len() > 0 && s[0] == 45
}

/// The signed value that `s` spells: an optional `-`, then digits.
pub open spec fn signed_value(s: Seq<u8>) -> int {
    if is_negative(s) {
        -(digits_value(magnitude_part(s)) as int)
    } else {
        digits_value(magnitude_part(s)) as int
    }
}

/// `s` spells a signed number between `-limit - 1` and `limit`, the range
/// of a two's complement integer whose largest value is `limit`.
pub open spec fn spells_signed(s: Seq<u8>, limit: nat) -> bool {
    &&& is_numeral(magnitude_part(s))
    &&& digits_value(magnitude_part(s)) <= limit + if is_negative(s) { 1nat } else { 0nat }
}

/// `s` spells an unsigned number that is at most `limit`.
pub open spec fn spells_unsigned(s: Seq<u8>, limit: nat) -> bool {
    is_numeral(s) && digits_value(s) <= limit
}

/// The number that `s` spells when it is a numeral no larger than `limit`.
pub open spec fn unsigned_reading(s: Seq<u8>, limit: nat) -> Option<nat> {
    if spells_unsigned(s, limit) {
        Some(digits_value(s))
    } else {
        None
    }
}

/// The number that `s` spells when it is an optional `-` then a numeral,
/// between `-limit - 1` and `limit`.
pub open spec fn signed_reading(s: Seq<u8>, limit: nat) -> Option<int> {
    if spells_signed(s, limit) {
        Some(signed_value(s))
    } else {
        None
    }
}

/// The first position at which `s` holds `\r\n`, if any.
pub open spec fn crlf_at(s: Seq<u8>, i: int) -> bool {
    0 <= i && i + 1 < s.len() && s[i] == 13 && s[i + 1] == 10
}

pub proof fn lemma_digits_value_prefix_monotone(s: Seq<u8>, k: int)
    requires
        0 <= k <= s.len(),
    ensures
        digits_value(s.subrange(0, k)) <= digits_value(s),
    decreases s.len() - k,
{
    if k < s.len() {
        lemma_digits_value_prefix_monotone(s, k + 1);
        assert(s.subrange(0, k + 1).drop_last() =~= s.subrange(0, k));
    } else {
        assert(s.subrange(0, k) =~= s);
    }
}

pub proof fn lemma_decimal_digits(n: nat)
    ensures
        is_numeral(decimal(n)),
        digits_value(decimal(n)) == n,
        decimal(n).len() <= n + 1,
    decreases n,
{
    if n >= 10 {
        lemma_decimal_digits(n / 10);
        assert(decimal(n).drop_last() =~= decimal(n / 10));
        assert(n == (n / 10) * 10 + n % 10);
        assert(decimal(n).last() == (48 + n % 10) as u8);
        assert(digits_value(decimal(n)) == digits_value(decimal(n / 10)) * 10 + (n % 10));
    } else {
        assert(decimal(n).drop_last() =~= Seq::<u8>::empty());
        assert(digits_value(decimal(n)) == digits_value(Seq::<u8>::empty()) * 10 + n);
    }
}

/// The position of the first `\r\n` in `buffer`.
pub fn find_crlf(buffer: &[u8]) -> (found: Option<usize>)
    ensures
        match found {
            Some(i) => crlf_at(buffer@, i as int) && forall|j: int| 0 <= j < i ==> !crlf_at(buffer@, j),
            None => forall|j: int| !crlf_at(buffer@, j),
        },
{
    let n = buffer.len();
    let mut i: usize = 0;
    while n > 0 && i < n - 1
        invariant
            n == buffer@.len(),
            forall|j: int| 0 <= j < i ==> !crlf_at(buffer@, j),
        decreases n - i,
    {
        if buffer[i] == 13u8 && buffer[i + 1] == 10u8 {
            return Some(i);
        }
        i += 1;
    }
    None
}

/// Reads the digits `bytes[start..]` as a number no larger than `limit`.
pub fn digits_up_to(bytes: &[u8], start: usize, limit: u64) -> (result: Result<u64, Sin>)
    requires
        start <= bytes@.len(),
        limit >= 9,
    ensures
        match result {
            Ok(v) => spells_unsigned(bytes@.subrange(start as int, bytes@.len() as int), limit as nat)
                && v == digits_value(bytes@.subrange(start as int, bytes@.len() as int)),
            Err(e) => e == Sin::ParseError
                && !spells_unsigned(bytes@.subrange(start as int, bytes@.len() as int), limit as nat),
        },
{
    let ghost body = bytes@.subrange(start as int, bytes@.len() as int);
    if start == bytes.len() {
        return Err(Sin::ParseError);
    }
    let mut result: u64 = 0;
    let mut k: usize = start;
    while k < bytes.len()
        invariant
            start <= k <= bytes@.len(),
            body == bytes@.subrange(start as int, bytes@.len() as int),
            all_digits(body.subrange(0, k - start)),
            result == digits_value(body.subrange(0, k - start)),
            result <= limit,
            limit >= 9,
        decreases bytes@.len() - k,
    {
        let b = bytes[k];
        if !(48u8 <= b && b <= 57u8) {
            assert(!all_digits(body)) by {
                assert(body[k - start] == b);
            }
            return Err(Sin::ParseError);
        }
        let d = (b - 48u8) as u64;
        assert(body.subrange(0, k + 1 - start).drop_last() =~= body.subrange(0, k - start));
        if result > (limit - d) / 10 {
            proof {
                assert(result * 10 + d > limit) by (nonlinear_arith)
                    requires result > (limit - d) / 10, d <= 9, d <= limit;
                if all_digits(body) {
                    lemma_digits_value_prefix_monotone(body, k + 1 - start);
                }
            }
            return Err(Sin::ParseError);
        }
        proof {
            assert(result * 10 + d <= limit) by (nonlinear_arith)
                requires result <= (limit - d) / 10, d <= 9;
        }
        result = result * 10 + d;
        k += 1;
    }
    assert(body.subrange(0, k - start) =~= body);
    Ok(result)
}

/// Reads `bytes` as a 32-bit signed decimal number.
pub fn bytes_to_i32(bytes: &[u8]) -> (result: Result<i32, Sin>)
    ensures
        match result {
            Ok(v) => signed_reading(bytes@, i32::MAX as nat) == Some(v as int),
            Err(e) => e == Sin::ParseError && signed_reading(bytes@, i32::MAX as nat) is None,
        },
{
    let start: usize = if bytes.len() > 0 && bytes[0] == 45u8 { 1 } else { 0 };
    assert(magnitude_part(bytes@) =~= bytes@.subrange(start as int, bytes@.len() as int));
    let limit: u64 = if start == 1 { 2147483648u64 } else { 2147483647u64 };
    let magnitude = digits_up_to(bytes, start, limit)?;
    if start == 1 {
        if magnitude == 2147483648u64 {
            Ok(i32::MIN)
        } else {
            Ok(-(magnitude as i32))
        }
    } else {
        Ok(magnitude as i32)
    }
}

/// Reads `bytes` as a 64-bit signed decimal number.
pub fn bytes_to_i64(bytes: &[u8]) -> (result: Result<i64, Sin>)
    ensures
        match result {
            Ok(v) => signed_reading(bytes@, i64::MAX as nat) == Some(v as int),
            Err(e) => e == Sin::ParseError && signed_reading(bytes@, i64::MAX as nat) is None,
        },
{
    let start: usize = if bytes.len() > 0 && bytes[0] == 45u8 { 1 } else { 0 };
    assert(magnitude_part(bytes@) =~= bytes@.subrange(start as int, bytes@.len() as int));
    let limit: u64 = if start == 1 { 9223372036854775808u64 } else { 9223372036854775807u64 };
    let magnitude = digits_up_to(bytes, start, limit)?;
    if start == 1 {
        if magnitude == 9223372036854775808u64 {
            Ok(i64::MIN)
        } else {
            Ok(-(magnitude as i64))
        }
    } else {
        Ok(magnitude as i64)
    }
}

/// Reads `bytes` as an unsigned 64-bit decimal number.
pub fn bytes_to_u64(bytes: &[u8]) -> (result: Result<u64, Sin>)
    ensures
        match result {
            Ok(v) => unsigned_reading(bytes@, u64::MAX as nat) == Some(v as nat),
            Err(e) => e == Sin::ParseError && unsigned_reading(bytes@, u64::MAX as nat) is None,
        },
{
    assert(bytes@.subrange(0, bytes@.len() as int) =~= bytes@);
    digits_up_to(bytes, 0, 18446744073709551615u64)
}

/// Reads `bytes` as an unsigned decimal number of the machine's word size.
pub fn bytes_to_usize(bytes: &[u8]) -> (result: Result<usize, Sin>)
    ensures
        match result {
            Ok(v) => unsigned_reading(bytes@, usize::MAX as nat) == Some(v as nat),
            Err(e) => e == Sin::ParseError && unsigned_reading(bytes@, usize::MAX as nat) is None,
        },
{
    assert(bytes@.subrange(0, bytes@.len() as int) =~= bytes@);
    let v = digits_up_to(bytes, 0, usize::MAX as u64)?;
    Ok(v as usize)
}

/// `itoa::Buffer::format`: the shortest decimal spelling of `n`, with a
/// leading `-` when `n` is negative, as bytes.
#[verifier::external_body]
fn itoa_format(n: i128) -> (spelled: Vec<u8>)
    ensures
        spelled@ == signed_decimal(n as int),
{
    itoa::Buffer::new().format(n).as_bytes().to_vec()
}

/// The decimal spelling of a count.
pub fn spell_unsigned(n: u64) -> (spelled: Vec<u8>)
    ensures
        spelled@ == decimal(n as nat),
{
    itoa_format(n as i128)
}

/// The decimal spelling of a signed number.
pub fn spell_signed(n: i64) -> (spelled: Vec<u8>)
    ensures
        spelled@ == signed_decimal(n as int),
{
    itoa_format(n as i128)
}

/// Reading back the decimal spelling of an unsigned number gives the number.
pub proof fn lemma_unsigned_spelling_reads_back(n: nat, limit: nat)
    requires
        n <= limit,
    ensures
        unsigned_reading(decimal(n), limit) == Some(n),
{
    lemma_decimal_digits(n);
}

/// Reading back the spelling of a signed number gives the number, for every
/// number between `-limit - 1` and `limit`.
pub proof fn lemma_signed_spelling_reads_back(i: int, limit: nat)
    requires
        -limit - 1 <= i <= limit,
    ensures
        signed_reading(signed_decimal(i), limit) == Some(i),
{
    let s = signed_decimal(i);
    if i < 0 {
        lemma_decimal_digits((-i) as nat);
        assert(s.drop_first() =~= decimal((-i) as nat));
    } else {
        lemma_decimal_digits(i as nat);
        assert(is_digit(s[0]));
    }
}

} // verus!
