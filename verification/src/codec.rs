//! Wire format for field elements: the canonical 32-byte little-endian
//! encoding rendered as 64 lowercase hex characters.  Decoding rejects
//! strings of the wrong shape and encodings at or above the field modulus.

use vstd::prelude::*;

use crate::field::{
    is_canonical, le_val, lemma_le_val_bound, modulus, modulus_le, pow256, Fe,
};
use vstd::string::{StrSliceExecFns, StringExecFns};

verus! {

/// A lowercase hexadecimal digit.
pub open spec fn is_hex_digit(c: char) -> bool {
    ('0' <= c && c <= '9') || ('a' <= c && c <= 'f')
}

/// Numeric value of a lowercase hexadecimal digit.
pub open spec fn hex_digit_val(c: char) -> int {
    if '0' <= c && c <= '9' {
        c as int - '0' as int
    } else if 'a' <= c && c <= 'f' {
        c as int - 'a' as int + 10
    } else {
        0
    }
}

/// The lowercase hexadecimal digit for a value below 16.
pub open spec fn hex_char(n: int) -> char {
    if n == 0 {
        '0'
    } else if n == 1 {
        '1'
    } else if n == 2 {
        '2'
    } else if n == 3 {
        '3'
    } else if n == 4 {
        '4'
    } else if n == 5 {
        '5'
    } else if n == 6 {
        '6'
    } else if n == 7 {
        '7'
    } else if n == 8 {
        '8'
    } else if n == 9 {
        '9'
    } else if n == 10 {
        'a'
    } else if n == 11 {
        'b'
    } else if n == 12 {
        'c'
    } else if n == 13 {
        'd'
    } else if n == 14 {
        'e'
    } else {
        'f'
    }
}

/// A well-formed commitment or root string: exactly 64 lowercase hex digits.
pub open spec fn is_hex_str(s: Seq<char>) -> bool {
    s.len() == 64 && forall|i: int| 0 <= i < s.len() ==> is_hex_digit(#[trigger] s[i])
}

/// The bytes denoted by a hex string, two digits per byte, bytes in
/// little-endian order as they appear in the string.
pub open spec fn hex_to_bytes(s: Seq<char>) -> Seq<u8> {
    Seq::new(s.len() / 2, |i: int| (hex_digit_val(s[2 * i]) * 16 + hex_digit_val(s[2 * i + 1])) as u8)
}

/// The hex rendering of a byte string, two lowercase digits per byte.
pub open spec fn bytes_to_hex(b: Seq<u8>) -> Seq<char> {
    Seq::new(
        b.len() * 2,
        |i: int| if i % 2 == 0 {
            hex_char((b[i / 2] / 16) as int)
        } else {
            hex_char((b[i / 2] % 16) as int)
        },
    )
}

/// A string that decodes to a field element: 64 lowercase hex digits whose
/// value lies below the field modulus.
pub open spec fn valid_commitment_hex(s: Seq<char>) -> bool {
    is_hex_str(s) && le_val(hex_to_bytes(s)) < modulus()
}

/// Rendering a byte string and reading it back yields the same bytes.
pub proof fn lemma_hex_of_bytes_round_trip(b: Seq<u8>)
    ensures
        hex_to_bytes(bytes_to_hex(b)) == b,
{
    let h = bytes_to_hex(b);
    assert forall|i: int| 0 <= i < b.len() implies hex_to_bytes(h)[i] == b[i] by {
        let x = b[i];
        assert(h[2 * i] == hex_char((x / 16) as int));
        assert(h[2 * i + 1] == hex_char((x % 16) as int));
        assert(hex_digit_val(hex_char((x / 16) as int)) == x / 16);
        assert(hex_digit_val(hex_char((x % 16) as int)) == x % 16);
    }
    assert(hex_to_bytes(h) =~= b);
}

/// Reading a well-formed hex string and rendering the bytes again yields the
/// same string.
pub proof fn lemma_bytes_of_hex_round_trip(s: Seq<char>)
    requires
        s.len() % 2 == 0,
        forall|i: int| 0 <= i < s.len() ==> is_hex_digit(#[trigger] s[i]),
    ensures
        bytes_to_hex(hex_to_bytes(s)) == s,
{
    let b = hex_to_bytes(s);
    assert forall|i: int| 0 <= i < s.len() implies bytes_to_hex(b)[i] == s[i] by {
        let hi = hex_digit_val(s[2 * (i / 2)]);
        let lo = hex_digit_val(s[2 * (i / 2) + 1]);
        assert(b[i / 2] == (hi * 16 + lo) as u8);
        assert(0 <= hi < 16 && 0 <= lo < 16);
        assert((hi * 16 + lo) as u8 / 16 == hi && (hi * 16 + lo) as u8 % 16 == lo);
        assert(hex_char(hex_digit_val(s[i])) == s[i]);
        if i % 2 == 0 {
            assert(2 * (i / 2) == i);
        } else {
            assert(2 * (i / 2) + 1 == i);
        }
    }
    assert(bytes_to_hex(b) =~= s);
}

/// The hex rendering of a canonical encoding is itself a valid commitment
/// string, so every root or commitment the service prints can be read back.
pub proof fn lemma_bytes_to_hex_valid(b: Seq<u8>)
    requires
        is_canonical(b),
    ensures
        valid_commitment_hex(bytes_to_hex(b)),
{
    let h = bytes_to_hex(b);
    assert forall|i: int| 0 <= i < h.len() implies is_hex_digit(#[trigger] h[i]) by {
        let x = b[i / 2];
        assert(x / 16 < 16 && x % 16 < 16);
    }
    lemma_hex_of_bytes_round_trip(b);
}

/// Value of a byte string with the high digits of two equal-length strings
/// equal and one digit smaller: the string with the smaller digit is smaller.
proof fn lemma_le_val_split(s: Seq<u8>, k: int)
    requires
        0 <= k <= s.len(),
    ensures
        le_val(s) == le_val(s.take(k)) + pow256(k as nat) * le_val(s.skip(k)),
    decreases k,
{
    if k == 0 {
        assert(s.take(0) =~= Seq::<u8>::empty());
        assert(s.skip(0) =~= s);
        assert(pow256(0) * le_val(s) == le_val(s)) by (nonlinear_arith)
            requires
                pow256(0) == 1,
        {}
    } else {
        lemma_le_val_split(s.skip(1), k - 1);
        assert(s.skip(1).take(k - 1) =~= s.take(k).skip(1));
        assert(s.skip(1).skip(k - 1) =~= s.skip(k));
        let a = le_val(s.take(k).skip(1));
        let rest = le_val(s.skip(k));
        let p = pow256((k - 1) as nat);
        assert(le_val(s.skip(1)) == a + p * rest);
        assert(le_val(s) == s[0] + 256 * (a + p * rest));
        assert(s.take(k)[0] == s[0]);
        assert(s.take(k).len() == k);
        assert(le_val(s.take(k)) == s[0] + 256 * a);
        assert(256 * (a + p * rest) == 256 * a + (256 * p) * rest) by (nonlinear_arith);
        assert(pow256(k as nat) == 256 * p);
    }
}

/// Comparison of values from the most significant differing byte: if two
/// equal-length strings agree above position `i` and differ there, the one
/// with the smaller byte at `i` has the smaller value.
proof fn lemma_le_val_compare(a: Seq<u8>, b: Seq<u8>, i: int)
    requires
        a.len() == b.len(),
        0 <= i < a.len(),
        forall|j: int| i < j < a.len() ==> a[j] == b[j],
        a[i] < b[i],
    ensures
        le_val(a) < le_val(b),
{
    lemma_le_val_split(a, i + 1);
    lemma_le_val_split(b, i + 1);
    assert(a.skip(i + 1) =~= b.skip(i + 1));
    let suffix = le_val(a.skip(i + 1));
    lemma_le_val_split(a.take(i + 1), i);
    lemma_le_val_split(b.take(i + 1), i);
    assert(a.take(i + 1).take(i) =~= a.take(i));
    assert(b.take(i + 1).take(i) =~= b.take(i));
    assert(a.take(i + 1).skip(i) =~= seq![a[i]]);
    assert(b.take(i + 1).skip(i) =~= seq![b[i]]);
    assert(le_val(seq![a[i]]) == a[i] + 256 * le_val(seq![a[i]].skip(1)));
    assert(seq![a[i]].skip(1) =~= Seq::<u8>::empty());
    assert(le_val(seq![a[i]]) == a[i]);
    assert(le_val(seq![b[i]]) == b[i] + 256 * le_val(seq![b[i]].skip(1)));
    assert(seq![b[i]].skip(1) =~= Seq::<u8>::empty());
    assert(le_val(seq![b[i]]) == b[i]);
    lemma_le_val_bound(a.take(i));
    let p = pow256(i as nat);
    assert(le_val(a.take(i + 1)) < le_val(b.take(i + 1))) by (nonlinear_arith)
        requires
            le_val(a.take(i + 1)) == le_val(a.take(i)) + p * a[i],
            le_val(b.take(i + 1)) == le_val(b.take(i)) + p * b[i],
            le_val(a.take(i)) < p,
            le_val(b.take(i)) >= 0,
            a[i] < b[i],
    {}
    let q = pow256((i + 1) as nat);
    assert(le_val(a) < le_val(b)) by (nonlinear_arith)
        requires
            le_val(a) == le_val(a.take(i + 1)) + q * suffix,
            le_val(b) == le_val(b.take(i + 1)) + q * suffix,
            le_val(a.take(i + 1)) < le_val(b.take(i + 1)),
    {}
}

/// The little-endian bytes of the field modulus, for the canonicity check.
fn modulus_bytes() -> (v: Vec<u8>)
    ensures
        v@ == modulus_le(),
{
    let v: Vec<u8> = vec![
        0x01u8, 0x00u8, 0x00u8, 0x00u8, 0xedu8, 0x30u8, 0x2du8, 0x99u8,
        0x1bu8, 0xf9u8, 0x4cu8, 0x09u8, 0xfcu8, 0x98u8, 0x46u8, 0x22u8,
        0x00u8, 0x00u8, 0x00u8, 0x00u8, 0x00u8, 0x00u8, 0x00u8, 0x00u8,
        0x00u8, 0x00u8, 0x00u8, 0x00u8, 0x00u8, 0x00u8, 0x00u8, 0x40u8,
    ];
    proof {
        assert(v@ =~= modulus_le());
    }
    v
}

/// Decide whether a 32-byte little-endian encoding lies below the modulus,
/// comparing from the most significant byte down.
fn is_below_modulus(b: &[u8; 32]) -> (r: bool)
    ensures
        r == (le_val(b@) < modulus()),
{
    let m = modulus_bytes();
    let mut i: usize = 32;
    while i > 0
        invariant
            i <= 32,
            m@ == modulus_le(),
            forall|j: int| i <= j < 32 ==> b@[j] == modulus_le()[j],
        decreases i,
    {
        i -= 1;
        if b[i] < m[i] {
            proof {
                lemma_le_val_compare(b@, modulus_le(), i as int);
            }
            return true;
        }
        if b[i] > m[i] {
            proof {
                lemma_le_val_compare(modulus_le(), b@, i as int);
            }
            return false;
        }
    }
    proof {
        assert(b@ =~= modulus_le());
    }
    false
}

/// Numeric value of one lowercase hex digit given as its ASCII byte, or
/// `None` for any other byte.
fn ascii_hex_val(b: u8) -> (r: Option<u8>)
    ensures
        r is Some <==> (0x30 <= b <= 0x39 || 0x61 <= b <= 0x66),
        0x30 <= b <= 0x39 ==> r == Some((b - 0x30) as u8),
        0x61 <= b <= 0x66 ==> r == Some((b - 0x61 + 10) as u8),
        r matches Some(v) ==> v < 16,
{
    if 0x30 <= b && b <= 0x39 {
        Some(b - 0x30)
    } else if 0x61 <= b && b <= 0x66 {
        Some(b - 0x61 + 10)
    } else {
        None
    }
}

/// An ASCII character is a hex digit exactly when its byte is one, and the
/// digit values agree.
proof fn lemma_ascii_hex_digit(c: char, b: u8)
    requires
        '\0' <= c <= '\u{7f}',
        c as u8 == b,
    ensures
        is_hex_digit(c) <==> (0x30 <= b <= 0x39 || 0x61 <= b <= 0x66),
        0x30 <= b <= 0x39 ==> hex_digit_val(c) == b - 0x30,
        0x61 <= b <= 0x66 ==> hex_digit_val(c) == b - 0x61 + 10,
{
    assert(c as int == b as int);
}

/// Parse a commitment or root string: 64 lowercase hex characters holding a
/// canonical little-endian field-element encoding.  Returns `None` exactly on
/// malformed strings and on encodings at or above the modulus.
pub fn hex_to_fe(s: &str) -> (r: Option<Fe>)
    ensures
        r is Some <==> valid_commitment_hex(s@),
        r matches Some(fe) ==> fe@ == hex_to_bytes(s@),
{
    if !s.is_ascii() {
        proof {
            assert(!is_hex_str(s@)) by {
                if is_hex_str(s@) {
                    assert forall|i: int| 0 <= i < s@.len() implies '\0' <= #[trigger] s@[i]
                        <= '\u{7f}' by {
                        assert(is_hex_digit(s@[i]));
                    }
                }
            }
        }
        return None;
    }
    if s.unicode_len() != 64 {
        return None;
    }
    let mut bytes: [u8; 32] = [0u8; 32];
    let mut i: usize = 0;
    while i < 32
        invariant
            i <= 32,
            s.is_ascii(),
            s@.len() == 64,
            forall|k: int| 0 <= k < 2 * i ==> is_hex_digit(#[trigger] s@[k]),
            forall|j: int| 0 <= j < i ==> bytes@[j] == hex_to_bytes(s@)[j],
        decreases 32 - i,
    {
        let hi = s.get_ascii(2 * i);
        let lo = s.get_ascii(2 * i + 1);
        proof {
            lemma_ascii_hex_digit(s@[2 * i as int], hi);
            lemma_ascii_hex_digit(s@[2 * i as int + 1], lo);
        }
        let hv = match ascii_hex_val(hi) {
            Some(v) => v,
            None => {
                proof {
                    assert(!is_hex_digit(s@[2 * i as int]));
                }
                return None;
            },
        };
        let lv = match ascii_hex_val(lo) {
            Some(v) => v,
            None => {
                proof {
                    assert(!is_hex_digit(s@[2 * i as int + 1]));
                }
                return None;
            },
        };
        bytes[i] = hv * 16 + lv;
        proof {
            assert(hv == hex_digit_val(s@[2 * i as int]));
            assert(lv == hex_digit_val(s@[2 * i as int + 1]));
            assert(bytes@[i as int] == hex_to_bytes(s@)[i as int]);
        }
        i += 1;
    }
    proof {
        assert(is_hex_str(s@));
        assert(bytes@ =~= hex_to_bytes(s@));
    }
    if !is_below_modulus(&bytes) {
        return None;
    }
    Some(Fe::from_canonical(bytes))
}

/// One lowercase hex digit as a string slice.
fn nibble_str(n: u8) -> (r: &'static str)
    requires
        n < 16,
    ensures
        r@ == seq![hex_char(n as int)],
{
    proof {
        reveal_strlit("0");
        reveal_strlit("1");
        reveal_strlit("2");
        reveal_strlit("3");
        reveal_strlit("4");
        reveal_strlit("5");
        reveal_strlit("6");
        reveal_strlit("7");
        reveal_strlit("8");
        reveal_strlit("9");
        reveal_strlit("a");
        reveal_strlit("b");
        reveal_strlit("c");
        reveal_strlit("d");
        reveal_strlit("e");
        reveal_strlit("f");
    }
    let r: &'static str = if n == 0 {
        "0"
    } else if n == 1 {
        "1"
    } else if n == 2 {
        "2"
    } else if n == 3 {
        "3"
    } else if n == 4 {
        "4"
    } else if n == 5 {
        "5"
    } else if n == 6 {
        "6"
    } else if n == 7 {
        "7"
    } else if n == 8 {
        "8"
    } else if n == 9 {
        "9"
    } else if n == 10 {
        "a"
    } else if n == 11 {
        "b"
    } else if n == 12 {
        "c"
    } else if n == 13 {
        "d"
    } else if n == 14 {
        "e"
    } else {
        "f"
    };
    proof {
        assert(r@ =~= seq![hex_char(n as int)]);
    }
    r
}

/// Render a field element as 64 lowercase hex characters, little-endian
/// byte order.
pub fn fe_to_hex(fe: &Fe) -> (r: String)
    ensures
        r@ == bytes_to_hex(fe@),
        r@.len() == 64,
        valid_commitment_hex(r@),
{
    let bytes = fe.to_bytes();
    proof {
        lemma_bytes_to_hex_valid(fe@);
    }
    let mut out = String::new();
    let mut i: usize = 0;
    while i < 32
        invariant
            i <= 32,
            bytes@ == fe@,
            out@ == bytes_to_hex(fe@.take(i as int)),
        decreases 32 - i,
    {
        let b = bytes[i];
        let hi = nibble_str(b / 16);
        let lo = nibble_str(b % 16);
        out.append(hi);
        out.append(lo);
        proof {
            assert(out@ =~= bytes_to_hex(fe@.take(i as int + 1)));
        }
        i += 1;
    }
    proof {
        assert(fe@.take(32) =~= fe@);
    }
    out
}

} // verus!
