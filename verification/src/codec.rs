//! The canonical text form of an identifier: 20 characters over the alphabet
//! `0`–`9` then `a`–`v`, each carrying five bits, most significant first.
//! 12 bytes are 96 bits; the final character carries the last bit followed by
//! four zero bits, so a canonical final character is `0` or `g`.  The digit
//! alphabet is chosen so that lexicographic order of encoded strings equals
//! byte-wise order of the underlying values.
use vstd::prelude::*;

verus! {

use crate::id::{ID, byte_ints, id_num, lemma_byte_ints_ok, lemma_id_order_is_lex};
use crate::radix::{
    seq_num, num_digits, digits_ok, lex_lt, lemma_seq_num_bound, lemma_seq_num_push,
    lemma_seq_num_order, lemma_seq_num_of_digits, lemma_digits_of_seq_num, lemma_num_digits_ok,
    lemma_pow_vals,
};
use vstd::arithmetic::power::{pow, lemma_pow0, lemma_pow1, lemma_pow_adds, lemma_pow_positive};
use vstd::arithmetic::div_mod::{
    lemma_div_denominator, lemma_div_pos_is_pos, lemma_mod_bound, lemma_mod_multiples_basic,
    lemma_div_by_multiple, lemma_fundamental_div_mod, lemma_multiply_divide_lt,
};

/// Decoding failures: the input is not a canonical identifier string.
#[derive(Debug, Clone, Copy, PartialEq, Eq, Structural)]
pub enum CodecError {
    /// The input is not exactly 20 characters long.
    InvalidLength,
    /// A character lies outside `0`–`9` / `a`–`v`.
    InvalidCharacter,
    /// All characters are in the alphabet, but the final one carries bits
    /// below the 96-bit payload (it is not `0` or `g`).
    NonCanonical,
}

/// The code point of the character for digit `d`: `0`–`9` then `a`–`v`.
pub open spec fn ascii_of_digit(d: int) -> int {
    if d < 10 {
        48 + d
    } else {
        87 + d
    }
}

/// The character for digit `d`.
pub open spec fn char_of_digit(d: int) -> char
    recommends
        0 <= d < 32,
{
    (ascii_of_digit(d) as u8) as char
}

/// Whether `c` is in the alphabet.
pub open spec fn is_digit_char(c: char) -> bool {
    (48 <= (c as int) && (c as int) <= 57) || (97 <= (c as int) && (c as int) <= 118)
}

/// The digit of a character in the alphabet.
pub open spec fn digit_of_char(c: char) -> int {
    if (c as int) <= 57 {
        (c as int) - 48
    } else {
        (c as int) - 87
    }
}

/// The characters of a sequence as code points.
pub open spec fn char_ints(cs: Seq<char>) -> Seq<int> {
    cs.map_values(|c: char| c as int)
}

/// Lexicographic order on character sequences, by code point: the order in
/// which Rust compares `str` values.
pub open spec fn chars_lt(a: Seq<char>, b: Seq<char>) -> bool {
    lex_lt(char_ints(a), char_ints(b))
}

/// The 20 base-32 digits of an identifier's bytes (96 bits shifted left by
/// four, so the last digit carries four zero bits).
pub open spec fn encode_digits(s: Seq<u8>) -> Seq<int> {
    num_digits(32, id_num(s) * 16, 20)
}

/// The canonical 20-character encoding of an identifier's bytes.
pub open spec fn encode_chars(s: Seq<u8>) -> Seq<char> {
    encode_digits(s).map_values(|d: int| char_of_digit(d))
}

/// The digits of a candidate identifier string.
pub open spec fn char_digits(cs: Seq<char>) -> Seq<int> {
    cs.map_values(|c: char| digit_of_char(c))
}

/// Every character lies in the alphabet.
pub open spec fn all_digit_chars(cs: Seq<char>) -> bool {
    forall|i: int| 0 <= i < cs.len() ==> is_digit_char(#[trigger] cs[i])
}

/// A canonical identifier string: 20 alphabet characters whose value has the
/// four bits below the payload clear.
pub open spec fn is_canonical(cs: Seq<char>) -> bool {
    cs.len() == 20 && all_digit_chars(cs) && seq_num(32, char_digits(cs)) % 16 == 0
}

/// The bytes that a canonical string denotes.
pub open spec fn decode_bytes(cs: Seq<char>) -> Seq<u8> {
    num_digits(256, seq_num(32, char_digits(cs)) / 16, 12).map_values(|d: int| d as u8)
}

/// The alphabet character of a digit is in the alphabet, carries the code
/// point `ascii_of_digit` gives, and maps back to the digit.
proof fn lemma_char_of_digit_val(d: int)
    requires
        0 <= d < 32,
    ensures
        char_of_digit(d) as int == ascii_of_digit(d),
        is_digit_char(char_of_digit(d)),
        digit_of_char(char_of_digit(d)) == d,
{
}

/// An alphabet character is the character of its digit.
proof fn lemma_digit_of_char_val(c: char)
    requires
        is_digit_char(c),
    ensures
        0 <= digit_of_char(c) < 32,
        char_of_digit(digit_of_char(c)) == c,
{
}

impl ID {
    /// The canonical 20-character text form: digits `0`–`9` then letters
    /// `a`–`v`, sorted as the bytes are.
    pub fn encode(&self) -> (r: String)
        ensures
            r@ == encode_chars(self@),
            r@.len() == 20,
            all_digit_chars(r@),
    {
        let n = self.to_num();
        proof {
            crate::id::lemma_id_len(*self);
            lemma_byte_ints_ok(self@);
            lemma_seq_num_bound(256, byte_ints(self@));
            lemma_pow_vals();
        }
        let m: u128 = n * 16;
        let mut rev: Vec<u8> = Vec::new();
        let mut m2: u128 = m;
        let mut k: usize = 0;
        proof {
            lemma_pow0(32);
        }
        while k < 20
            invariant
                k <= 20,
                rev@.len() == k,
                m2 as int == (m as int) / pow(32, k as nat),
                forall|j: int|
                    0 <= j < k ==> (#[trigger] rev@[j]) as int == (m as int) / pow(32, j as nat)
                        % 32,
                forall|j: int| 0 <= j < k ==> (#[trigger] rev@[j]) < 32,
            decreases 20 - k,
        {
            let d = (m2 % 32) as u8;
            proof {
                lemma_pow_positive(32, k as nat);
                lemma_div_pos_is_pos(m as int, pow(32, k as nat));
                lemma_mod_bound(m2 as int, 32);
                lemma_div_denominator(m as int, pow(32, k as nat), 32);
                lemma_pow_adds(32, k as nat, 1);
                lemma_pow1(32);
                assert(pow(32, k as nat) * 32 == pow(32, (k + 1) as nat));
            }
            rev.push(d);
            m2 = m2 / 32;
            k = k + 1;
        }
        let mut out: Vec<u8> = Vec::new();
        let mut j: usize = 0;
        while j < 20
            invariant
                j <= 20,
                rev@.len() == 20,
                forall|i: int|
                    0 <= i < 20 ==> (#[trigger] rev@[i]) as int == (m as int) / pow(32, i as nat)
                        % 32,
                forall|i: int| 0 <= i < 20 ==> (#[trigger] rev@[i]) < 32,
                out@.len() == j,
                forall|i: int|
                    0 <= i < j ==> (#[trigger] out@[i]) as int == ascii_of_digit(
                        rev@[19 - i] as int,
                    ),
                forall|i: int| 0 <= i < j ==> (#[trigger] out@[i]) < 128,
            decreases 20 - j,
        {
            let d = rev[19 - j];
            let a: u8 = if d < 10 {
                48 + d
            } else {
                87 + d
            };
            out.push(a);
            j = j + 1;
        }
        let s = crate::trusted::ascii_to_string(out);
        proof {
            assert forall|i: int| 0 <= i < 20 implies s@[i] == encode_chars(self@)[i] by {
                let dig = encode_digits(self@)[i];
                assert(dig == (m as int) / pow(32, (19 - i) as nat) % 32);
                assert(rev@[19 - i] as int == dig);
                assert(s@[i] == out@[i] as char);
                assert(out@[i] as int == ascii_of_digit(dig));
            }
            assert(s@ =~= encode_chars(self@));
            assert forall|i: int| 0 <= i < 20 implies is_digit_char(#[trigger] s@[i]) by {
                let dig = encode_digits(self@)[i];
                lemma_num_digits_ok(32, id_num(self@) * 16, 20);
                lemma_char_of_digit_val(dig);
            }
        }
        s
    }

    /// Decode a canonical 20-character string back to the identifier it
    /// denotes.  Exactly the canonical strings decode; each malformed input
    /// is rejected with the error naming what is wrong with it.
    pub fn decode(s: &str) -> (r: Result<ID, CodecError>)
        ensures
            r matches Ok(id) ==> is_canonical(s@) && id@ == decode_bytes(s@),
            is_canonical(s@) ==> r is Ok,
            r == Err::<ID, CodecError>(CodecError::InvalidLength) <==> s@.len() != 20,
            r == Err::<ID, CodecError>(CodecError::InvalidCharacter) <==> s@.len() == 20
                && !all_digit_chars(s@),
            r == Err::<ID, CodecError>(CodecError::NonCanonical) <==> s@.len() == 20
                && all_digit_chars(s@) && seq_num(32, char_digits(s@)) % 16 != 0,
    {
        let len = s.unicode_len();
        if len != 20 {
            return Err(CodecError::InvalidLength);
        }
        let mut m: u128 = 0;
        let mut j: usize = 0;
        proof {
            lemma_pow0(32);
            assert(char_digits(s@.take(0)) =~= Seq::<int>::empty());
        }
        while j < 20
            invariant
                j <= 20,
                s@.len() == 20,
                forall|k: int| 0 <= k < j ==> is_digit_char(#[trigger] s@[k]),
                m as int == seq_num(32, char_digits(s@.take(j as int))),
                (m as int) < pow(32, j as nat),
            decreases 20 - j,
        {
            let c = s.get_char(j);
            let v = c as u32;
            let d: u32;
            if 48 <= v && v <= 57 {
                d = v - 48;
            } else if 97 <= v && v <= 118 {
                d = v - 87;
            } else {
                proof {
                    assert(!is_digit_char(s@[j as int]));
                }
                return Err(CodecError::InvalidCharacter);
            }
            proof {
                assert(is_digit_char(s@[j as int]));
                assert(d as int == digit_of_char(s@[j as int]));
                let prefix = char_digits(s@.take(j as int));
                let next = char_digits(s@.take(j as int + 1));
                assert(next =~= prefix.push(digit_of_char(s@[j as int])));
                lemma_seq_num_push(32, prefix, digit_of_char(s@[j as int]));
                lemma_pow1(32);
                lemma_pow_adds(32, j as nat, 1);
                lemma_pow_vals();
                vstd::arithmetic::power::lemma_pow_increases(32, (j + 1) as nat, 20);
                vstd::arithmetic::mul::lemma_mul_inequality(
                    m as int,
                    pow(32, j as nat) - 1,
                    32,
                );
                assert((pow(32, j as nat) - 1) * 32 == pow(32, j as nat) * 32 - 32)
                    by (nonlinear_arith);
            }
            m = m * 32 + (d as u128);
            j = j + 1;
        }
        proof {
            assert(s@.take(20) =~= s@);
        }
        if m % 16 != 0 {
            return Err(CodecError::NonCanonical);
        }
        let n: u128 = m / 16;
        proof {
            lemma_pow_vals();
            lemma_multiply_divide_lt(m as int, 16, pow(256, 12));
            lemma_pow0(256);
        }
        let mut rev: Vec<u8> = Vec::new();
        let mut n2: u128 = n;
        let mut k: usize = 0;
        while k < 12
            invariant
                k <= 12,
                rev@.len() == k,
                n2 as int == (n as int) / pow(256, k as nat),
                forall|i: int|
                    0 <= i < k ==> (#[trigger] rev@[i]) as int == (n as int) / pow(256, i as nat)
                        % 256,
            decreases 12 - k,
        {
            let b = (n2 % 256) as u8;
            proof {
                lemma_pow_positive(256, k as nat);
                lemma_div_pos_is_pos(n as int, pow(256, k as nat));
                lemma_mod_bound(n2 as int, 256);
                lemma_div_denominator(n as int, pow(256, k as nat), 256);
                lemma_pow_adds(256, k as nat, 1);
                lemma_pow1(256);
                assert(pow(256, k as nat) * 256 == pow(256, (k + 1) as nat));
            }
            rev.push(b);
            n2 = n2 / 256;
            k = k + 1;
        }
        let val: [u8; 12] = [
            rev[11],
            rev[10],
            rev[9],
            rev[8],
            rev[7],
            rev[6],
            rev[5],
            rev[4],
            rev[3],
            rev[2],
            rev[1],
            rev[0],
        ];
        proof {
            assert forall|i: int| 0 <= i < 12 implies val@[i] == decode_bytes(s@)[i] by {
                assert(val@[i] == rev@[11 - i]);
                assert(decode_bytes(s@)[i] == (num_digits(256, n as int, 12)[i]) as u8);
                assert(num_digits(256, n as int, 12)[i] == (n as int) / pow(
                    256,
                    (11 - i) as nat,
                ) % 256);
            }
            assert(val@ =~= decode_bytes(s@));
        }
        Ok(ID::from_val(val))
    }
}

/// Encoding then decoding restores the bytes: every identifier's text form is
/// canonical and denotes exactly that identifier.
pub proof fn lemma_round_trip(s: Seq<u8>)
    requires
        s.len() == 12,
    ensures
        is_canonical(encode_chars(s)),
        decode_bytes(encode_chars(s)) == s,
{
    let n = id_num(s);
    let m = n * 16;
    lemma_byte_ints_ok(s);
    lemma_seq_num_bound(256, byte_ints(s));
    lemma_pow_vals();
    lemma_num_digits_ok(32, m, 20);
    let digs = encode_digits(s);
    assert(char_digits(encode_chars(s)) =~= digs) by {
        assert forall|i: int| 0 <= i < 20 implies char_digits(encode_chars(s))[i] == digs[i] by {
            lemma_char_of_digit_val(digs[i]);
        }
    }
    assert(all_digit_chars(encode_chars(s))) by {
        assert forall|i: int| 0 <= i < 20 implies is_digit_char(#[trigger] encode_chars(s)[i]) by {
            lemma_char_of_digit_val(digs[i]);
        }
    }
    lemma_seq_num_of_digits(32, m, 20);
    assert(seq_num(32, char_digits(encode_chars(s))) == m);
    lemma_mod_multiples_basic(n, 16);
    assert(m % 16 == 0);
    lemma_div_by_multiple(n, 16);
    assert(m / 16 == n);
    lemma_digits_of_seq_num(256, byte_ints(s));
    assert(num_digits(256, n, 12) =~= byte_ints(s));
    assert(decode_bytes(encode_chars(s)) =~= s) by {
        assert forall|i: int| 0 <= i < 12 implies decode_bytes(encode_chars(s))[i] == s[i] by {
            assert(byte_ints(s)[i] == s[i] as int);
        }
    }
}

/// Decoding then encoding restores the string: a canonical string is the text
/// form of the identifier it denotes.
pub proof fn lemma_decode_encode(cs: Seq<char>)
    requires
        is_canonical(cs),
    ensures
        decode_bytes(cs).len() == 12,
        encode_chars(decode_bytes(cs)) == cs,
{
    let digs = char_digits(cs);
    assert(digits_ok(digs, 32)) by {
        assert forall|i: int| 0 <= i < 20 implies 0 <= #[trigger] digs[i] < 32 by {
            lemma_digit_of_char_val(cs[i]);
        }
    }
    lemma_seq_num_bound(32, digs);
    lemma_pow_vals();
    let m = seq_num(32, digs);
    let n = m / 16;
    lemma_multiply_divide_lt(m, 16, pow(256, 12));
    lemma_div_pos_is_pos(m, 16);
    lemma_fundamental_div_mod(m, 16);
    assert(m == 16 * n);
    let bytes = decode_bytes(cs);
    lemma_num_digits_ok(256, n, 12);
    assert(byte_ints(bytes) =~= num_digits(256, n, 12)) by {
        assert forall|i: int| 0 <= i < 12 implies byte_ints(bytes)[i] == num_digits(
            256,
            n,
            12,
        )[i] by {
            assert(bytes[i] == (num_digits(256, n, 12)[i]) as u8);
        }
    }
    lemma_seq_num_of_digits(256, n, 12);
    assert(id_num(bytes) == n);
    lemma_digits_of_seq_num(32, digs);
    assert(num_digits(32, m, 20) =~= digs);
    assert(encode_digits(bytes) == num_digits(32, m, 20)) by {
        assert(id_num(bytes) * 16 == m);
    }
    assert(encode_chars(bytes) =~= cs) by {
        assert forall|i: int| 0 <= i < 20 implies encode_chars(bytes)[i] == cs[i] by {
            lemma_digit_of_char_val(cs[i]);
        }
    }
}

/// Mapping digits to alphabet characters preserves lexicographic order: the
/// digit-to-character table is strictly increasing.
proof fn lemma_char_map_order(d1: Seq<int>, d2: Seq<int>)
    requires
        d1.len() == d2.len(),
        digits_ok(d1, 32),
        digits_ok(d2, 32),
    ensures
        lex_lt(d1, d2) <==> lex_lt(
            char_ints(d1.map_values(|d: int| char_of_digit(d))),
            char_ints(d2.map_values(|d: int| char_of_digit(d))),
        ),
    decreases d1.len(),
{
    let c1 = char_ints(d1.map_values(|d: int| char_of_digit(d)));
    let c2 = char_ints(d2.map_values(|d: int| char_of_digit(d)));
    if d1.len() > 0 {
        lemma_char_of_digit_val(d1[0]);
        lemma_char_of_digit_val(d2[0]);
        assert(c1.first() == ascii_of_digit(d1[0]));
        assert(c2.first() == ascii_of_digit(d2[0]));
        let r1 = d1.drop_first();
        let r2 = d2.drop_first();
        assert(digits_ok(r1, 32) && digits_ok(r2, 32));
        lemma_char_map_order(r1, r2);
        assert(c1.drop_first() =~= char_ints(r1.map_values(|d: int| char_of_digit(d))));
        assert(c2.drop_first() =~= char_ints(r2.map_values(|d: int| char_of_digit(d))));
    }
}

/// Order preservation: identifiers compare by bytes exactly as their text
/// forms compare as strings (code-point lexicographic order).
pub proof fn lemma_order_preserved(a: Seq<u8>, b: Seq<u8>)
    requires
        a.len() == 12,
        b.len() == 12,
    ensures
        lex_lt(byte_ints(a), byte_ints(b)) <==> chars_lt(encode_chars(a), encode_chars(b)),
        id_num(a) < id_num(b) <==> chars_lt(encode_chars(a), encode_chars(b)),
{
    lemma_id_order_is_lex(a, b);
    lemma_byte_ints_ok(a);
    lemma_byte_ints_ok(b);
    lemma_seq_num_bound(256, byte_ints(a));
    lemma_seq_num_bound(256, byte_ints(b));
    lemma_pow_vals();
    let ma = id_num(a) * 16;
    let mb = id_num(b) * 16;
    lemma_num_digits_ok(32, ma, 20);
    lemma_num_digits_ok(32, mb, 20);
    lemma_seq_num_of_digits(32, ma, 20);
    lemma_seq_num_of_digits(32, mb, 20);
    lemma_seq_num_order(32, encode_digits(a), encode_digits(b));
    lemma_char_map_order(encode_digits(a), encode_digits(b));
}

} // verus!
