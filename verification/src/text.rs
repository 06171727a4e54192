use vstd::prelude::*;
use vstd::utf8::*;
use vstd::string::StrSliceExecFns;
use vstd::string::StringExecFns;

verus! {

// ---------------------------------------------------------------------------
// Character / byte conversions for ASCII text
// ---------------------------------------------------------------------------

/// The characters denoted by a byte sequence, read byte for byte.
/// Meaningful when every byte is below 0x80.
pub open spec fn bytes_to_chars(b: Seq<u8>) -> Seq<char> {
    Seq::new(b.len(), |i: int| (b[i] as u32) as char)
}

/// The bytes of a character sequence, character for character.
/// Meaningful when every character is ASCII.
pub open spec fn chars_to_bytes(s: Seq<char>) -> Seq<u8> {
    Seq::new(s.len(), |i: int| s[i] as u8)
}

pub open spec fn is_ascii_bytes(b: Seq<u8>) -> bool {
    forall|i: int| 0 <= i < b.len() ==> #[trigger] b[i] < 0x80
}

/// Cast facts for one ASCII character; stating them on a `char` parameter
/// makes them available for characters drawn out of a sequence.
pub proof fn lemma_ascii_char(c: char)
    requires
        (c as u32) < 0x80,
    ensures
        (c as u8) as u32 == c as u32,
        (c as u8) < 0x80,
        '\0' <= c <= '\u{7f}',
        ((c as u32) as char) == c,
{
}

/// A run of ASCII bytes is valid UTF-8 and decodes byte for byte.
pub proof fn lemma_ascii_bytes_utf8(b: Seq<u8>)
    requires
        is_ascii_bytes(b),
    ensures
        valid_utf8(b),
        decode_utf8(b) =~= bytes_to_chars(b),
        is_ascii_chars(bytes_to_chars(b)),
    decreases b.len(),
{
    if b.len() == 0 {
        assert(bytes_to_chars(b) =~= Seq::<char>::empty());
    } else {
        let b0 = b[0];
        assert(b0 < 0x80);
        assert(b0 & 0x7F == b0) by (bit_vector)
            requires
                b0 < 0x80,
        ;
        assert(is_leading_byte_width_1(b0));
        assert(decode_first_codepoint(b) == b0 as u32);
        assert(length_of_first_scalar(b) == 1);
        assert(valid_first_scalar(b));
        let rest = b.subrange(1, b.len() as int);
        assert(pop_first_scalar(b) =~= rest);
        assert(is_ascii_bytes(rest));
        lemma_ascii_bytes_utf8(rest);
        assert(valid_utf8(b));
        assert(decode_utf8(b) =~= seq![(b0 as u32) as char] + decode_utf8(rest));
        assert(decode_utf8(b) =~= bytes_to_chars(b));
    }
}

/// ASCII characters survive the round trip through their bytes.
pub proof fn lemma_ascii_chars_bytes_id(s: Seq<char>)
    requires
        is_ascii_chars(s),
    ensures
        is_ascii_bytes(chars_to_bytes(s)),
        bytes_to_chars(chars_to_bytes(s)) =~= s,
{
    assert forall|i: int| 0 <= i < s.len() implies #[trigger] chars_to_bytes(s)[i] < 0x80 by {
        assert((s[i] as nat) < 128);
    }
}

/// ASCII bytes survive the round trip through their characters.
pub proof fn lemma_ascii_bytes_chars_id(b: Seq<u8>)
    requires
        is_ascii_bytes(b),
    ensures
        is_ascii_chars(bytes_to_chars(b)),
        chars_to_bytes(bytes_to_chars(b)) =~= b,
{
    lemma_ascii_bytes_utf8(b);
}

/// For ASCII text the UTF-8 encoding is the byte-for-byte translation.
pub proof fn lemma_ascii_encode_utf8(s: Seq<char>)
    requires
        is_ascii_chars(s),
    ensures
        encode_utf8(s) =~= chars_to_bytes(s),
{
    is_ascii_chars_encode_utf8(s);
}

// ---------------------------------------------------------------------------
// Trusted wrappers around std string conversions
// ---------------------------------------------------------------------------

/// Relies on String::push: appends exactly the given character.
#[verifier::external_body]
pub(crate) fn push_char(s: &mut String, c: char)
    ensures
        final(s)@ == old(s)@ + seq![c],
{
    s.push(c);
}

/// Relies on String::from_utf8: succeeds exactly on valid UTF-8 input and
/// yields the character sequence those bytes encode.
#[verifier::external_body]
pub(crate) fn bytes_to_string(v: Vec<u8>) -> (r: Option<String>)
    ensures
        r is Some <==> valid_utf8(v@),
        r matches Some(s) ==> s@ == decode_utf8(v@),
{
    match String::from_utf8(v) {
        Ok(s) => Some(s),
        Err(_) => None,
    }
}

/// Builds the string whose characters are the given ASCII bytes.
pub fn ascii_string_from_bytes(v: Vec<u8>) -> (r: String)
    requires
        is_ascii_bytes(v@),
    ensures
        r@ == bytes_to_chars(v@),
{
    proof {
        lemma_ascii_bytes_utf8(v@);
    }
    let s = bytes_to_string(v);
    s.unwrap()
}

// ---------------------------------------------------------------------------
// Decimal formatting and parsing
// ---------------------------------------------------------------------------

pub open spec fn dec_digit_char(d: int) -> char {
    ((0x30 + d) as u32) as char
}

pub open spec fn spec_decimal(n: nat) -> Seq<char>
    decreases n,
{
    if n < 10 {
        seq![dec_digit_char(n as int)]
    } else {
        spec_decimal(n / 10).push(dec_digit_char((n % 10) as int))
    }
}

pub open spec fn digit_char(c: char) -> bool {
    0x30 <= (c as u32) && (c as u32) <= 0x39
}

pub open spec fn all_digits(s: Seq<char>) -> bool {
    forall|i: int| 0 <= i < s.len() ==> digit_char(#[trigger] s[i])
}

pub open spec fn spec_digits_value(s: Seq<char>) -> int
    decreases s.len(),
{
    if s.len() == 0 {
        0
    } else {
        spec_digits_value(s.drop_last()) * 10 + ((s.last() as u32) - 0x30)
    }
}

pub open spec fn spec_parse_decimal(s: Seq<char>) -> Option<int> {
    if s.len() == 0 || !all_digits(s) {
        None
    } else {
        Some(spec_digits_value(s))
    }
}

pub proof fn lemma_digits_value_nonneg(s: Seq<char>)
    requires
        all_digits(s),
    ensures
        spec_digits_value(s) >= 0,
    decreases s.len(),
{
    if s.len() > 0 {
        assert(all_digits(s.drop_last()));
        lemma_digits_value_nonneg(s.drop_last());
    }
}

/// Once a digit prefix exceeds a bound, the whole digit string does.
pub proof fn lemma_digits_value_grows(s: Seq<char>, i: int, bound: int)
    requires
        0 <= i <= s.len(),
        all_digits(s.subrange(0, i)),
        spec_digits_value(s.subrange(0, i)) > bound,
        bound >= 0,
    ensures
        all_digits(s) ==> spec_digits_value(s) > bound,
    decreases s.len() - i,
{
    if i < s.len() && all_digits(s) {
        let t = s.subrange(0, i + 1);
        assert(t.drop_last() =~= s.subrange(0, i));
        assert(digit_char(s[i]));
        assert(all_digits(t));
        lemma_digits_value_nonneg(s.subrange(0, i));
        assert(spec_digits_value(t) == spec_digits_value(s.subrange(0, i)) * 10 + ((s[i] as u32)
            - 0x30));
        assert(spec_digits_value(t) > bound) by (nonlinear_arith)
            requires
                spec_digits_value(t) == spec_digits_value(s.subrange(0, i)) * 10 + ((s[i] as u32)
                    - 0x30),
                spec_digits_value(s.subrange(0, i)) > bound,
                bound >= 0,
                (s[i] as u32) >= 0x30,
        ;
        lemma_digits_value_grows(s, i + 1, bound);
    } else {
        if i == s.len() {
            assert(s.subrange(0, i) =~= s);
        }
    }
}

/// The decimal text of a number is made of digits and denotes that number.
pub proof fn lemma_decimal_value(n: nat)
    ensures
        spec_decimal(n).len() >= 1,
        all_digits(spec_decimal(n)),
        spec_digits_value(spec_decimal(n)) == n,
    decreases n,
{
    if n < 10 {
        let s = spec_decimal(n);
        assert(s =~= seq![dec_digit_char(n as int)]);
        assert((dec_digit_char(n as int) as u32) == 0x30 + n);
        assert(s.drop_last() =~= Seq::<char>::empty());
        assert(spec_digits_value(s.drop_last()) == 0);
        assert(spec_digits_value(s) == n);
    } else {
        lemma_decimal_value(n / 10);
        let s = spec_decimal(n);
        assert(s.drop_last() =~= spec_decimal(n / 10));
        assert((dec_digit_char((n % 10) as int) as u32) == 0x30 + (n % 10));
        assert(all_digits(s));
        assert(spec_digits_value(s) == spec_digits_value(s.drop_last()) * 10 + ((s.last() as u32)
            - 0x30));
        assert(spec_digits_value(s.drop_last()) == n / 10);
        assert(((s.last() as u32) - 0x30) == n % 10);
        vstd::arithmetic::div_mod::lemma_fundamental_div_mod(n as int, 10);
        assert(spec_digits_value(s) == n);
    }
}

pub open spec fn pow10(k: nat) -> nat
    decreases k,
{
    if k == 0 {
        1
    } else {
        10 * pow10((k - 1) as nat)
    }
}

pub proof fn lemma_decimal_len(n: nat, k: nat)
    requires
        k >= 1,
        n < pow10(k),
    ensures
        spec_decimal(n).len() <= k,
    decreases k,
{
    if n < 10 {
    } else {
        assert(pow10(k) == 10 * pow10((k - 1) as nat));
        vstd::arithmetic::div_mod::lemma_fundamental_div_mod(n as int, 10);
        assert(10 * (n as int / 10) <= n);
        assert(n as int / 10 < pow10((k - 1) as nat)) by {
            if n as int / 10 >= pow10((k - 1) as nat) {
                vstd::arithmetic::mul::lemma_mul_inequality(
                    pow10((k - 1) as nat) as int,
                    n as int / 10,
                    10,
                );
            }
        }
        assert(k >= 2) by {
            if k == 1 {
                assert(pow10(1nat) == 10);
            }
        }
        lemma_decimal_len(n / 10, (k - 1) as nat);
    }
}

/// A `u32` needs at most ten decimal digits.
pub proof fn lemma_decimal_len_u32(n: nat)
    requires
        n <= 0xFFFF_FFFF,
    ensures
        spec_decimal(n).len() <= 10,
{
    assert(pow10(0nat) == 1);
    assert(pow10(1nat) == 10);
    assert(pow10(2nat) == 100);
    assert(pow10(3nat) == 1000);
    assert(pow10(4nat) == 10000);
    assert(pow10(5nat) == 100000);
    assert(pow10(6nat) == 1000000);
    assert(pow10(7nat) == 10000000);
    assert(pow10(8nat) == 100000000);
    assert(pow10(9nat) == 1000000000);
    assert(pow10(10nat) == 10000000000);
    lemma_decimal_len(n, 10);
}

/// Formats a number in decimal.
pub fn u128_to_string(n: u128) -> (r: String)
    ensures
        r@ == spec_decimal(n as nat),
{
    let mut digits: Vec<u8> = Vec::new();
    let mut m: u128 = n;
    proof {
        assert(spec_decimal(n as nat) =~= spec_decimal(m as nat) + Seq::new(
            digits@.len(),
            |j: int| ((digits@[digits@.len() - 1 - j] as u32) as char),
        ));
    }
    while m >= 10
        invariant
            forall|j: int|
                0 <= j < digits@.len() ==> 0x30 <= #[trigger] digits@[j] && digits@[j] <= 0x39,
            spec_decimal(n as nat) =~= spec_decimal(m as nat) + Seq::new(
                digits@.len(),
                |j: int| ((digits@[digits@.len() - 1 - j] as u32) as char),
            ),
        decreases m,
    {
        let ghost pre = digits@;
        let ghost m0 = m as nat;
        let d: u8 = (m % 10) as u8 + 0x30;
        digits.push(d);
        m = m / 10;
        proof {
            assert(spec_decimal(m0) == spec_decimal(m0 / 10).push(dec_digit_char((m0 % 10) as int)));
            assert((d as u32) == 0x30 + (m0 % 10));
            let old_tail = Seq::new(pre.len(), |j: int| ((pre[pre.len() - 1 - j] as u32) as char));
            let new_tail = Seq::new(
                digits@.len(),
                |j: int| ((digits@[digits@.len() - 1 - j] as u32) as char),
            );
            assert(new_tail =~= seq![dec_digit_char((m0 % 10) as int)] + old_tail);
            assert(spec_decimal(m as nat) + new_tail =~= (spec_decimal(m as nat).push(
                dec_digit_char((m0 % 10) as int),
            )) + old_tail);
            assert(spec_decimal(n as nat) =~= spec_decimal(m as nat) + new_tail);
        }
    }
    let ghost mfin = m as nat;
    let d: u8 = m as u8 + 0x30;
    digits.push(d);
    proof {
        let pre = digits@.drop_last();
        let old_tail = Seq::new(pre.len(), |j: int| ((pre[pre.len() - 1 - j] as u32) as char));
        let new_tail = Seq::new(
            digits@.len(),
            |j: int| ((digits@[digits@.len() - 1 - j] as u32) as char),
        );
        assert(spec_decimal(mfin) =~= seq![dec_digit_char(mfin as int)]);
        assert(new_tail =~= seq![dec_digit_char(mfin as int)] + old_tail);
        assert(spec_decimal(n as nat) =~= new_tail);
    }
    let mut out = String::new();
    let mut i: usize = digits.len();
    while i > 0
        invariant
            i <= digits@.len(),
            forall|j: int|
                0 <= j < digits@.len() ==> 0x30 <= #[trigger] digits@[j] && digits@[j] <= 0x39,
            spec_decimal(n as nat) =~= Seq::new(
                digits@.len(),
                |j: int| ((digits@[digits@.len() - 1 - j] as u32) as char),
            ),
            out@ =~= Seq::new(
                (digits@.len() - i) as nat,
                |j: int| ((digits@[digits@.len() - 1 - j] as u32) as char),
            ),
        decreases i,
    {
        i = i - 1;
        let c: char = digits[i] as char;
        push_char(&mut out, c);
        proof {
            assert(out@ =~= Seq::new(
                (digits@.len() - i) as nat,
                |j: int| ((digits@[digits@.len() - 1 - j] as u32) as char),
            ));
        }
    }
    proof {
        assert(out@ =~= spec_decimal(n as nat));
    }
    out
}

pub fn u32_to_string(n: u32) -> (r: String)
    ensures
        r@ == spec_decimal(n as nat),
{
    u128_to_string(n as u128)
}

pub fn u64_to_string(n: u64) -> (r: String)
    ensures
        r@ == spec_decimal(n as nat),
{
    u128_to_string(n as u128)
}

/// Parses a nonempty run of decimal digits; `None` on anything else or on
/// a value above `u128::MAX`.
pub fn parse_u128(s: &str) -> (r: Option<u128>)
    ensures
        match r {
            Some(v) => spec_parse_decimal(s@) == Some(v as int),
            None => spec_parse_decimal(s@) is None || spec_parse_decimal(s@).unwrap()
                > u128::MAX,
        },
{
    let n = s.unicode_len();
    if n == 0 {
        return None;
    }
    let mut acc: u128 = 0;
    let mut i: usize = 0;
    while i < n
        invariant
            0 < n == s@.len(),
            i <= n,
            all_digits(s@.subrange(0, i as int)),
            acc as int == spec_digits_value(s@.subrange(0, i as int)),
        decreases n - i,
    {
        let c = s.get_char(i);
        let u = c as u32;
        if u < 0x30 || u > 0x39 {
            assert(!digit_char(s@[i as int]));
            assert(!all_digits(s@));
            return None;
        }
        let d: u128 = (u - 0x30) as u128;
        proof {
            assert(s@.subrange(0, i + 1).drop_last() =~= s@.subrange(0, i as int));
            lemma_digits_value_nonneg(s@.subrange(0, i as int));
        }
        if acc > u128::MAX / 10 {
            proof {
                vstd::arithmetic::mul::lemma_mul_inequality(
                    (u128::MAX / 10 + 1) as int,
                    acc as int,
                    10,
                );
                assert(acc * 10 > u128::MAX);
                assert(spec_digits_value(s@.subrange(0, i + 1)) > u128::MAX);
                lemma_digits_value_grows(s@, i + 1, u128::MAX as int);
            }
            return None;
        }
        proof {
            vstd::arithmetic::mul::lemma_mul_inequality(acc as int, (u128::MAX / 10) as int, 10);
            assert((u128::MAX / 10) * 10 <= u128::MAX);
        }
        let shifted: u128 = acc * 10;
        if shifted > u128::MAX - d {
            proof {
                assert(spec_digits_value(s@.subrange(0, i + 1)) > u128::MAX);
                lemma_digits_value_grows(s@, i + 1, u128::MAX as int);
            }
            return None;
        }
        acc = shifted + d;
        i = i + 1;
    }
    proof {
        assert(s@.subrange(0, n as int) =~= s@);
    }
    Some(acc)
}

pub fn parse_u32(s: &str) -> (r: Option<u32>)
    ensures
        match r {
            Some(v) => spec_parse_decimal(s@) == Some(v as int),
            None => spec_parse_decimal(s@) is None || spec_parse_decimal(s@).unwrap() > u32::MAX,
        },
{
    match parse_u128(s) {
        Some(v) => {
            if v <= 0xFFFF_FFFFu128 {
                Some(v as u32)
            } else {
                None
            }
        },
        None => {
            proof {
                if spec_parse_decimal(s@) is Some {
                    lemma_digits_value_nonneg(s@);
                }
            }
            None
        },
    }
}

pub fn parse_u64(s: &str) -> (r: Option<u64>)
    ensures
        match r {
            Some(v) => spec_parse_decimal(s@) == Some(v as int),
            None => spec_parse_decimal(s@) is None || spec_parse_decimal(s@).unwrap() > u64::MAX,
        },
{
    match parse_u128(s) {
        Some(v) => {
            if v <= 0xFFFF_FFFF_FFFF_FFFFu128 {
                Some(v as u64)
            } else {
                None
            }
        },
        None => None,
    }
}

// ---------------------------------------------------------------------------
// String comparison, search, slicing
// ---------------------------------------------------------------------------

/// Character-for-character string equality.
pub fn str_eq(a: &str, b: &str) -> (r: bool)
    ensures
        r == (a@ == b@),
{
    let na = a.unicode_len();
    let nb = b.unicode_len();
    if na != nb {
        return false;
    }
    let mut i: usize = 0;
    while i < na
        invariant
            i <= na,
            na == a@.len() == b@.len() == nb,
            forall|j: int| 0 <= j < i ==> a@[j] == b@[j],
        decreases na - i,
    {
        if a.get_char(i) != b.get_char(i) {
            return false;
        }
        i = i + 1;
    }
    proof {
        assert(a@ =~= b@);
    }
    true
}

/// Index of the first occurrence of a character, or -1.
pub open spec fn find_char(s: Seq<char>, c: char) -> int
    decreases s.len(),
{
    if s.len() == 0 {
        -1
    } else if s[0] == c {
        0
    } else {
        let r = find_char(s.drop_first(), c);
        if r < 0 {
            -1
        } else {
            r + 1
        }
    }
}

pub proof fn lemma_find_char(s: Seq<char>, c: char)
    ensures
        find_char(s, c) == -1 || 0 <= find_char(s, c) < s.len(),
        find_char(s, c) == -1 ==> forall|i: int| 0 <= i < s.len() ==> s[i] != c,
        find_char(s, c) >= 0 ==> 0 <= find_char(s, c) < s.len() && s[find_char(s, c)] == c
            && (forall|i: int| 0 <= i < find_char(s, c) ==> s[i] != c),
    decreases s.len(),
{
    if s.len() > 0 && s[0] != c {
        lemma_find_char(s.drop_first(), c);
        let t = s.drop_first();
        let r = find_char(t, c);
        if r < 0 {
            assert forall|i: int| 0 <= i < s.len() implies s[i] != c by {
                if i > 0 {
                    assert(t[i - 1] == s[i]);
                }
            }
        } else {
            assert(s[r + 1] == t[r]);
            assert forall|i: int| 0 <= i < r + 1 implies s[i] != c by {
                if i > 0 {
                    assert(t[i - 1] == s[i]);
                }
            }
        }
    }
}

/// Index of the last occurrence of a character, or -1.
pub open spec fn rfind_char(s: Seq<char>, c: char) -> int
    decreases s.len(),
{
    if s.len() == 0 {
        -1
    } else if s.last() == c {
        s.len() - 1
    } else {
        rfind_char(s.drop_last(), c)
    }
}

pub proof fn lemma_rfind_char(s: Seq<char>, c: char)
    ensures
        rfind_char(s, c) == -1 || 0 <= rfind_char(s, c) < s.len(),
        rfind_char(s, c) == -1 ==> forall|i: int| 0 <= i < s.len() ==> s[i] != c,
        rfind_char(s, c) >= 0 ==> 0 <= rfind_char(s, c) < s.len() && s[rfind_char(s, c)] == c
            && (forall|i: int| rfind_char(s, c) < i < s.len() ==> s[i] != c),
    decreases s.len(),
{
    if s.len() > 0 && s.last() != c {
        lemma_rfind_char(s.drop_last(), c);
        let t = s.drop_last();
        let r = rfind_char(t, c);
        assert(forall|i: int| 0 <= i < t.len() ==> t[i] == s[i]);
        if r == -1 {
            assert forall|i: int| 0 <= i < s.len() implies s[i] != c by {
                if i < s.len() - 1 {
                    assert(t[i] == s[i]);
                    assert(t[i] != c);
                } else {
                    assert(s[i] == s.last());
                }
            }
        }
    }
}

/// First index of a character, scanning forward.
pub fn find_char_in(s: &str, c: char) -> (r: Option<usize>)
    ensures
        match r {
            Some(i) => find_char(s@, c) == i,
            None => find_char(s@, c) == -1,
        },
{
    let n = s.unicode_len();
    let mut i: usize = 0;
    while i < n
        invariant
            i <= n == s@.len(),
            forall|j: int| 0 <= j < i ==> s@[j] != c,
        decreases n - i,
    {
        if s.get_char(i) == c {
            proof {
                lemma_find_char_at(s@, c, i as int);
            }
            return Some(i);
        }
        i = i + 1;
    }
    proof {
        lemma_find_char(s@, c);
        if find_char(s@, c) >= 0 {
            assert(s@[find_char(s@, c)] == c);
        }
    }
    None
}

pub proof fn lemma_find_char_at(s: Seq<char>, c: char, i: int)
    requires
        0 <= i < s.len(),
        s[i] == c,
        forall|j: int| 0 <= j < i ==> s[j] != c,
    ensures
        find_char(s, c) == i,
    decreases s.len(),
{
    if i > 0 {
        lemma_find_char_at(s.drop_first(), c, i - 1);
    }
}

/// Last index of a character, scanning backward.
pub fn rfind_char_in(s: &str, c: char) -> (r: Option<usize>)
    ensures
        match r {
            Some(i) => rfind_char(s@, c) == i,
            None => rfind_char(s@, c) == -1,
        },
{
    let n = s.unicode_len();
    let mut i: usize = n;
    while i > 0
        invariant
            i <= n == s@.len(),
            forall|j: int| i <= j < s@.len() ==> s@[j] != c,
        decreases i,
    {
        i = i - 1;
        if s.get_char(i) == c {
            proof {
                lemma_rfind_char_at(s@, c, i as int);
            }
            return Some(i);
        }
    }
    proof {
        lemma_rfind_char(s@, c);
        if rfind_char(s@, c) >= 0 {
            assert(s@[rfind_char(s@, c)] == c);
        }
    }
    None
}

pub proof fn lemma_rfind_char_at(s: Seq<char>, c: char, i: int)
    requires
        0 <= i < s.len(),
        s[i] == c,
        forall|j: int| i < j < s.len() ==> s[j] != c,
    ensures
        rfind_char(s, c) == i,
    decreases s.len(),
{
    if i < s.len() - 1 {
        let t = s.drop_last();
        assert(t[i] == s[i]);
        assert forall|j: int| i < j < t.len() implies t[j] != c by {
            assert(t[j] == s[j]);
        }
        lemma_rfind_char_at(t, c, i);
        assert(s.last() != c);
        assert(rfind_char(s, c) == rfind_char(t, c));
    }
}

/// Strips a known prefix; `None` when the text does not start with it.
pub fn eat_prefix<'a>(s: &'a str, p: &str) -> (r: Option<&'a str>)
    ensures
        match r {
            Some(t) => p@.len() <= s@.len() && s@.subrange(0, p@.len() as int) == p@ && t@
                == s@.subrange(p@.len() as int, s@.len() as int),
            None => !(p@.len() <= s@.len() && s@.subrange(0, p@.len() as int) =~= p@),
        },
{
    let np = p.unicode_len();
    let ns = s.unicode_len();
    if np > ns {
        return None;
    }
    let mut i: usize = 0;
    while i < np
        invariant
            i <= np == p@.len(),
            np <= ns == s@.len(),
            forall|j: int| 0 <= j < i ==> s@[j] == p@[j],
        decreases np - i,
    {
        if s.get_char(i) != p.get_char(i) {
            return None;
        }
        i = i + 1;
    }
    proof {
        assert(s@.subrange(0, p@.len() as int) =~= p@);
    }
    Some(s.substring_char(np, ns))
}

} // verus!
