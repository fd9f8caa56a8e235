//! Hexadecimal text: spec-level meaning of hex digits and fields, and the
//! verified encoders and decoders the record codec is built on.

use vstd::prelude::*;

verus! {

/// ASCII code of the character `0`.
pub const DIGIT_0: u8 = 0x30;

/// ASCII code of the character `9`.
pub const DIGIT_9: u8 = 0x39;

/// ASCII code of the character `A`.
pub const UPPER_A: u8 = 0x41;

/// ASCII code of the character `F`.
pub const UPPER_F: u8 = 0x46;

/// ASCII code of the character `a`.
pub const LOWER_A: u8 = 0x61;

/// ASCII code of the character `f`.
pub const LOWER_F: u8 = 0x66;

/// True for the ASCII bytes `0-9`, `a-f` and `A-F`.
pub open spec fn is_hex_digit(b: u8) -> bool {
    (DIGIT_0 <= b && b <= DIGIT_9) || (LOWER_A <= b && b <= LOWER_F) || (UPPER_A <= b && b <= UPPER_F)
}

/// True for the ASCII bytes `0-9` and `A-F`, the digits canonical output uses.
pub open spec fn is_upper_hex_digit(b: u8) -> bool {
    (DIGIT_0 <= b && b <= DIGIT_9) || (UPPER_A <= b && b <= UPPER_F)
}

/// Numeric value of a hex digit byte (0 for bytes that are no hex digit).
pub open spec fn hex_digit_value(b: u8) -> u8 {
    if DIGIT_0 <= b && b <= DIGIT_9 {
        (b - DIGIT_0) as u8
    } else if LOWER_A <= b && b <= LOWER_F {
        (b - LOWER_A + 10) as u8
    } else if UPPER_A <= b && b <= UPPER_F {
        (b - UPPER_A + 10) as u8
    } else {
        0
    }
}

/// Canonical (uppercase) digit byte for a value below 16.
pub open spec fn hex_upper_digit(v: u8) -> u8
    recommends
        v < 16,
{
    if v < 10 {
        (DIGIT_0 + v) as u8
    } else {
        (UPPER_A + (v - 10)) as u8
    }
}

/// True when every byte of `s` is a hex digit.
pub open spec fn all_hex_digits(s: Seq<u8>) -> bool {
    forall|i: int| 0 <= i < s.len() ==> is_hex_digit(#[trigger] s[i])
}

/// True when every byte of `s` is an uppercase-or-digit hex digit.
pub open spec fn all_upper_hex_digits(s: Seq<u8>) -> bool {
    forall|i: int| 0 <= i < s.len() ==> is_upper_hex_digit(#[trigger] s[i])
}

/// The number a big-endian string of hex digits denotes.
pub open spec fn hex_value(s: Seq<u8>) -> int
    decreases s.len(),
{
    if s.len() == 0 {
        0
    } else {
        16 * hex_value(s.drop_last()) + hex_digit_value(s.last())
    }
}

/// The bytes a string of hex digit pairs denotes: each pair is one byte.
pub open spec fn decoded_bytes(s: Seq<u8>) -> Seq<u8> {
    Seq::new((s.len() / 2) as nat, |i: int|
        (hex_digit_value(s[2 * i]) * 16 + hex_digit_value(s[2 * i + 1])) as u8)
}

/// The canonical hex text of a byte string: two uppercase digits per byte.
pub open spec fn hex_upper(data: Seq<u8>) -> Seq<u8> {
    Seq::new(2 * data.len(), |i: int|
        if i % 2 == 0 {
            hex_upper_digit((data[i / 2] / 16) as u8)
        } else {
            hex_upper_digit((data[i / 2] % 16) as u8)
        })
}

/// The big-endian `n`-byte representation of a number.
pub open spec fn be_bytes(v: int, n: nat) -> Seq<u8>
    decreases n,
{
    if n == 0 {
        Seq::empty()
    } else {
        be_bytes(v / 256, (n - 1) as nat).push((v % 256) as u8)
    }
}

/// The number a big-endian byte string denotes.
pub open spec fn be_value(s: Seq<u8>) -> int
    decreases s.len(),
{
    if s.len() == 0 {
        0
    } else {
        256 * be_value(s.drop_last()) + s.last()
    }
}

/// Concrete powers of 16 up to the widest hex field a record can carry.
pub proof fn lemma_pow16_values()
    ensures
        vstd::arithmetic::power::pow(16, 0) == 1,
        vstd::arithmetic::power::pow(16, 1) == 16,
        vstd::arithmetic::power::pow(16, 2) == 0x100,
        vstd::arithmetic::power::pow(16, 3) == 0x1000,
        vstd::arithmetic::power::pow(16, 4) == 0x10000,
        vstd::arithmetic::power::pow(16, 5) == 0x100000,
        vstd::arithmetic::power::pow(16, 6) == 0x1000000,
        vstd::arithmetic::power::pow(16, 7) == 0x10000000,
        vstd::arithmetic::power::pow(16, 8) == 0x100000000,
{
    reveal_with_fuel(vstd::arithmetic::power::pow, 9);
}

/// Concrete powers of 256 up to the widest address field a record can carry.
pub proof fn lemma_pow256_values()
    ensures
        vstd::arithmetic::power::pow(256, 0) == 1,
        vstd::arithmetic::power::pow(256, 1) == 0x100,
        vstd::arithmetic::power::pow(256, 2) == 0x10000,
        vstd::arithmetic::power::pow(256, 3) == 0x1000000,
        vstd::arithmetic::power::pow(256, 4) == 0x100000000,
        vstd::arithmetic::power::pow(256, 8) == 0x10000000000000000,
{
    reveal_with_fuel(vstd::arithmetic::power::pow, 9);
}

/// A hex value is bounded by 16 to the number of digits.
pub proof fn lemma_hex_value_bound(s: Seq<u8>)
    ensures
        0 <= hex_value(s) < vstd::arithmetic::power::pow(16, s.len()),
    decreases s.len(),
{
    vstd::arithmetic::power::lemma_pow_positive(16, s.len());
    if s.len() > 0 {
        lemma_hex_value_bound(s.drop_last());
        vstd::arithmetic::power::lemma_pow1(16);
        vstd::arithmetic::power::lemma_pow_adds(16, (s.len() - 1) as nat, 1);
    }
}

/// Unfolding step for `hex_value` over a prefix.
pub proof fn lemma_hex_value_take_step(s: Seq<u8>, i: int)
    requires
        0 <= i < s.len(),
    ensures
        hex_value(s.take(i + 1)) == 16 * hex_value(s.take(i)) + hex_digit_value(s[i]),
{
    assert(s.take(i + 1).drop_last() =~= s.take(i));
    assert(s.take(i + 1).last() == s[i]);
}

/// Decoding the canonical hex text of a byte string gives the bytes back.
pub proof fn lemma_decode_of_encode(data: Seq<u8>)
    ensures
        all_upper_hex_digits(hex_upper(data)),
        decoded_bytes(hex_upper(data)) =~= data,
{
    let h = hex_upper(data);
    assert forall|i: int| 0 <= i < h.len() implies is_upper_hex_digit(#[trigger] h[i]) by {
        let b = data[i / 2];
        assert(b / 16 < 16 && b % 16 < 16);
    }
    assert forall|i: int| 0 <= i < data.len() implies decoded_bytes(h)[i] == data[i] by {
        let b = data[i];
        assert(h[2 * i] == hex_upper_digit((b / 16) as u8));
        assert(h[2 * i + 1] == hex_upper_digit((b % 16) as u8));
        assert(b / 16 < 16 && b % 16 < 16);
        assert(hex_digit_value(hex_upper_digit((b / 16) as u8)) == b / 16);
        assert(hex_digit_value(hex_upper_digit((b % 16) as u8)) == b % 16);
    }
}

/// Encoding the bytes an uppercase hex text denotes gives the text back.
pub proof fn lemma_encode_of_decode(s: Seq<u8>)
    requires
        s.len() % 2 == 0,
        all_upper_hex_digits(s),
    ensures
        hex_upper(decoded_bytes(s)) =~= s,
{
    let d = decoded_bytes(s);
    assert forall|i: int| 0 <= i < s.len() implies hex_upper(d)[i] == s[i] by {
        let hi = hex_digit_value(s[2 * (i / 2)]);
        let lo = hex_digit_value(s[2 * (i / 2) + 1]);
        assert(is_upper_hex_digit(s[2 * (i / 2)]));
        assert(is_upper_hex_digit(s[2 * (i / 2) + 1]));
        assert(hi < 16 && lo < 16);
        assert(d[i / 2] == hi * 16 + lo);
        assert(d[i / 2] / 16 == hi && d[i / 2] % 16 == lo);
        if i % 2 == 0 {
            assert(hex_upper_digit(hi as u8) == s[2 * (i / 2)]);
            assert(2 * (i / 2) == i);
        } else {
            assert(hex_upper_digit(lo as u8) == s[2 * (i / 2) + 1]);
            assert(2 * (i / 2) + 1 == i);
        }
    }
}

/// The hex value of a pair string equals the big-endian value of its bytes.
pub proof fn lemma_hex_value_is_be_value(s: Seq<u8>)
    requires
        s.len() % 2 == 0,
    ensures
        hex_value(s) == be_value(decoded_bytes(s)),
    decreases s.len(),
{
    if s.len() > 0 {
        let prefix = s.take(s.len() - 2);
        lemma_hex_value_is_be_value(prefix);
        assert(decoded_bytes(s).drop_last() =~= decoded_bytes(prefix));
        assert(s.drop_last().drop_last() =~= prefix);
        assert(hex_value(s) == 16 * hex_value(s.drop_last()) + hex_digit_value(s.last()));
        assert(hex_value(s.drop_last()) == 16 * hex_value(prefix) + hex_digit_value(
            s[s.len() - 2]));
        assert(decoded_bytes(s).last() == hex_digit_value(s[s.len() - 2]) * 16 + hex_digit_value(
            s[s.len() - 1]));
    }
}

/// The big-endian bytes of the value a byte string denotes are the string.
pub proof fn lemma_be_bytes_of_value(s: Seq<u8>)
    ensures
        be_bytes(be_value(s), s.len()) =~= s,
    decreases s.len(),
{
    if s.len() > 0 {
        lemma_be_bytes_of_value(s.drop_last());
        let v = be_value(s);
        assert(v == 256 * be_value(s.drop_last()) + s.last());
        assert(v / 256 == be_value(s.drop_last())) by {
            assert(0 <= s.last() < 256);
        }
        assert(v % 256 == s.last()) by {
            assert(0 <= s.last() < 256);
        }
    }
}

/// The value of the big-endian bytes of a bounded number is the number.
pub proof fn lemma_be_value_of_bytes(v: int, n: nat)
    requires
        0 <= v < vstd::arithmetic::power::pow(256, n),
    ensures
        be_bytes(v, n).len() == n,
        be_value(be_bytes(v, n)) == v,
    decreases n,
{
    vstd::arithmetic::power::lemma_pow0(256);
    if n > 0 {
        vstd::arithmetic::power::lemma_pow1(256);
        vstd::arithmetic::power::lemma_pow_adds(256, (n - 1) as nat, 1);
        assert(v / 256 < vstd::arithmetic::power::pow(256, (n - 1) as nat)) by {
            vstd::arithmetic::div_mod::lemma_fundamental_div_mod(v, 256);
        }
        lemma_be_value_of_bytes(v / 256, (n - 1) as nat);
        assert(be_bytes(v, n) == be_bytes(v / 256, (n - 1) as nat).push((v % 256) as u8));
        assert(be_bytes(v, n).drop_last() =~= be_bytes(v / 256, (n - 1) as nat));
        assert(be_bytes(v, n).last() == (v % 256) as u8);
        assert(be_bytes(v, n).len() == n);
        assert(be_value(be_bytes(v, n)) == 256 * be_value(be_bytes(v, n).drop_last())
            + be_bytes(v, n).last());
        assert(v == 256 * (v / 256) + v % 256) by {
            vstd::arithmetic::div_mod::lemma_fundamental_div_mod(v, 256);
        }
    }
}

/// Parses one hex digit byte; `None` exactly on bytes that are no hex digit.
pub fn parse_hex_digit(b: u8) -> (r: Option<u8>)
    ensures
        match r {
            Some(v) => is_hex_digit(b) && v == hex_digit_value(b) && v < 16,
            None => !is_hex_digit(b),
        },
{
    if DIGIT_0 <= b && b <= DIGIT_9 {
        Some(b - DIGIT_0)
    } else if LOWER_A <= b && b <= LOWER_F {
        Some(b - LOWER_A + 10)
    } else if UPPER_A <= b && b <= UPPER_F {
        Some(b - UPPER_A + 10)
    } else {
        None
    }
}

/// Parses the hex digits `bytes[start..start + digits]` as one big-endian
/// number; `None` exactly when some byte there is no hex digit.
pub fn parse_hex_field(bytes: &[u8], start: usize, digits: usize) -> (r: Option<u64>)
    requires
        start + digits <= bytes@.len(),
        digits <= 8,
    ensures
        match r {
            Some(v) => all_hex_digits(bytes@.subrange(start as int, start + digits)) && v
                == hex_value(bytes@.subrange(start as int, start + digits)),
            None => !all_hex_digits(bytes@.subrange(start as int, start + digits)),
        },
{
    let total: usize = bytes.len();
    let field = Ghost(bytes@.subrange(start as int, start + digits));
    proof {
        vstd::arithmetic::power::lemma_pow0(16);
    }
    let mut acc: u64 = 0;
    let mut i: usize = 0;
    while i < digits
        invariant
            i <= digits,
            start + digits <= total == bytes@.len(),
            digits <= 8,
            field@ == bytes@.subrange(start as int, start + digits),
            all_hex_digits(field@.take(i as int)),
            acc == hex_value(field@.take(i as int)),
            acc < vstd::arithmetic::power::pow(16, i as nat),
        decreases digits - i,
    {
        proof {
            vstd::arithmetic::power::lemma_pow_adds(16, i as nat, 1);
            vstd::arithmetic::power::lemma_pow1(16);
            vstd::arithmetic::power::lemma_pow_increases(16, (i + 1) as nat, 8);
            lemma_pow16_values();
        }
        match parse_hex_digit(bytes[start + i]) {
            Some(d) => {
                proof {
                    lemma_hex_value_take_step(field@, i as int);
                    assert(field@[i as int] == bytes@[start + i]);
                    assert(field@.take(i + 1).drop_last() =~= field@.take(i as int));
                }
                acc = 16 * acc + (d as u64);
                i = i + 1;
            },
            None => {
                proof {
                    assert(field@[i as int] == bytes@[start + i]);
                }
                return None;
            },
        }
    }
    proof {
        assert(field@.take(digits as int) =~= field@);
    }
    Some(acc)
}

/// Decodes the hex digit pairs `bytes[start..start + 2 * count]` into `count`
/// bytes; `None` exactly when some byte there is no hex digit.
pub fn decode_hex_pairs(bytes: &[u8], start: usize, count: usize) -> (r: Option<Vec<u8>>)
    requires
        start + 2 * count <= bytes@.len(),
    ensures
        match r {
            Some(v) => all_hex_digits(bytes@.subrange(start as int, start + 2 * count)) && v@
                =~= decoded_bytes(bytes@.subrange(start as int, start + 2 * count)),
            None => !all_hex_digits(bytes@.subrange(start as int, start + 2 * count)),
        },
{
    let total: usize = bytes.len();
    let field = Ghost(bytes@.subrange(start as int, start + 2 * count));
    let mut out: Vec<u8> = Vec::new();
    let mut i: usize = 0;
    while i < count
        invariant
            i <= count,
            start + 2 * count <= total == bytes@.len(),
            field@ == bytes@.subrange(start as int, start + 2 * count),
            all_hex_digits(field@.take(2 * i)),
            out@.len() == i,
            forall|j: int| 0 <= j < i ==> out@[j] == decoded_bytes(field@)[j],
        decreases count - i,
    {
        let hi = match parse_hex_digit(bytes[start + 2 * i]) {
            Some(d) => d,
            None => {
                proof {
                    assert(field@[2 * i] == bytes@[start + 2 * i]);
                }
                return None;
            },
        };
        let lo = match parse_hex_digit(bytes[start + 2 * i + 1]) {
            Some(d) => d,
            None => {
                proof {
                    assert(field@[2 * i + 1] == bytes@[start + 2 * i + 1]);
                }
                return None;
            },
        };
        proof {
            assert(field@[2 * i] == bytes@[start + 2 * i]);
            assert(field@[2 * i + 1] == bytes@[start + 2 * i + 1]);
            assert forall|j: int| 0 <= j < 2 * (i + 1) implies is_hex_digit(
                #[trigger] field@.take(2 * (i + 1))[j]) by {
                assert(field@.take(2 * (i + 1))[j] == field@[j]);
                if j < 2 * i {
                    assert(field@.take(2 * i)[j] == field@[j]);
                }
            }
        }
        out.push(hi * 16 + lo);
        i = i + 1;
    }
    proof {
        assert(field@.take(2 * count) =~= field@);
        assert(out@ =~= decoded_bytes(field@));
    }
    Some(out)
}

/// Encodes bytes as canonical uppercase hex text, two digits per byte.
pub fn encode_hex_upper(data: &[u8]) -> (r: Vec<u8>)
    ensures
        r@ =~= hex_upper(data@),
{
    let mut out: Vec<u8> = Vec::new();
    let mut i: usize = 0;
    while i < data.len()
        invariant
            i <= data@.len(),
            out@.len() == 2 * i,
            forall|j: int| 0 <= j < 2 * i ==> out@[j] == hex_upper(data@)[j],
        decreases data@.len() - i,
    {
        let b = data[i];
        let hi = b / 16;
        let lo = b % 16;
        let hi_digit = if hi < 10 {
            DIGIT_0 + hi
        } else {
            UPPER_A + (hi - 10)
        };
        let lo_digit = if lo < 10 {
            DIGIT_0 + lo
        } else {
            UPPER_A + (lo - 10)
        };
        proof {
            assert(hex_upper(data@)[2 * i] == hex_upper_digit((data@[i as int] / 16) as u8));
            assert(hex_upper(data@)[2 * i + 1] == hex_upper_digit((data@[i as int] % 16) as u8));
        }
        out.push(hi_digit);
        out.push(lo_digit);
        i = i + 1;
    }
    out
}

} // verus!
