//! Small string helpers: equality, character pushes, UTF-8 decoding and
//! decimal formatting, shared by the codecs and the reporting code.

use vstd::prelude::*;
use vstd::string::StringSliceAdditionalSpecFns;
use vstd::utf8::{valid_utf8, decode_utf8, encode_utf8, encode_utf8_decode_utf8};

verus! {

/// Byte-wise comparison of two byte slices.
pub fn bytes_eq(a: &[u8], b: &[u8]) -> (r: bool)
    ensures
        r == (a@ == b@),
{
    if a.len() != b.len() {
        proof {
            assert(a@ != b@) by {
                if a@ == b@ {
                    assert(a@.len() == b@.len());
                }
            }
        }
        return false;
    }
    let n = a.len();
    let mut i: usize = 0;
    while i < n
        invariant
            n == a@.len() && n == b@.len(),
            0 <= i <= n,
            a@.subrange(0, i as int) == b@.subrange(0, i as int),
        decreases n - i,
    {
        if a[i] != b[i] {
            proof {
                assert(a@ != b@) by {
                    assert(a@[i as int] != b@[i as int]);
                }
            }
            return false;
        }
        proof {
            assert(a@.subrange(0, i + 1) == b@.subrange(0, i + 1)) by {
                assert(a@.subrange(0, i + 1) =~= a@.subrange(0, i as int).push(a@[i as int]));
                assert(b@.subrange(0, i + 1) =~= b@.subrange(0, i as int).push(b@[i as int]));
            }
        }
        i = i + 1;
    }
    proof {
        assert(a@ =~= b@) by {
            assert(a@.subrange(0, n as int) =~= a@);
            assert(b@.subrange(0, n as int) =~= b@);
        }
    }
    true
}

/// A fresh vector holding exactly the given bytes.
pub fn copy_bytes(data: &[u8]) -> (r: Vec<u8>)
    ensures
        r@ == data@,
{
    let n = data.len();
    let mut r: Vec<u8> = Vec::new();
    let mut i: usize = 0;
    while i < n
        invariant
            n == data@.len(),
            0 <= i <= n,
            r@ == data@.subrange(0, i as int),
        decreases n - i,
    {
        r.push(data[i]);
        proof {
            assert(data@.subrange(0, i + 1) =~= data@.subrange(0, i as int).push(data@[i as int]));
        }
        i = i + 1;
    }
    proof {
        assert(data@.subrange(0, n as int) =~= data@);
    }
    r
}

/// Byte-wise string equality, lifted to character sequences through the
/// injectivity of UTF-8 encoding.
pub fn str_eq(a: &str, b: &str) -> (r: bool)
    ensures
        r == (a@ == b@),
{
    let ab = a.as_bytes();
    let bb = b.as_bytes();
    proof {
        assert(ab@ == encode_utf8(a@));
        assert(bb@ == encode_utf8(b@));
        broadcast use encode_utf8_decode_utf8;
        assert(decode_utf8(encode_utf8(a@)) == a@);
        assert(decode_utf8(encode_utf8(b@)) == b@);
    }
    bytes_eq(ab, bb)
}

/// Relies on `String::push`: appends one character to the string.
#[verifier::external_body]
pub(crate) fn string_push_char(s: &mut String, c: char)
    ensures
        final(s)@ == old(s)@.push(c),
{
    s.push(c);
}

/// Relies on `String::from_utf8`: succeeds exactly on valid UTF-8 input, and
/// then returns the string those bytes spell.
#[verifier::external_body]
pub(crate) fn string_from_bytes(v: Vec<u8>) -> (r: Option<String>)
    ensures
        match r {
            Some(s) => valid_utf8(v@) && s@ == decode_utf8(v@) && encode_utf8(s@) == v@,
            None => !valid_utf8(v@),
        },
{
    match String::from_utf8(v) {
        Ok(s) => Some(s),
        Err(_) => None,
    }
}

/// Relies on `String::from_utf8_lossy`: on valid UTF-8 input the bytes are
/// decoded exactly; invalid sequences are replaced, of which nothing is
/// claimed here.
#[verifier::external_body]
pub(crate) fn string_from_bytes_lossy(v: &Vec<u8>) -> (r: String)
    ensures
        valid_utf8(v@) ==> r@ == decode_utf8(v@) && encode_utf8(r@) == v@,
{
    String::from_utf8_lossy(v.as_slice()).into_owned()
}

/// The decimal digits of `n`, most significant first.
pub open spec fn dec_str(n: nat) -> Seq<char>
    decreases n,
{
    let digit = seq![dec_digit((n % 10) as nat)];
    if n < 10 {
        digit
    } else {
        dec_str((n / 10) as nat) + digit
    }
}

/// The character for one decimal digit.
pub open spec fn dec_digit(d: nat) -> char {
    if d == 0 {
        '0'
    } else if d == 1 {
        '1'
    } else if d == 2 {
        '2'
    } else if d == 3 {
        '3'
    } else if d == 4 {
        '4'
    } else if d == 5 {
        '5'
    } else if d == 6 {
        '6'
    } else if d == 7 {
        '7'
    } else if d == 8 {
        '8'
    } else {
        '9'
    }
}

/// Appends the character of one decimal digit.
fn push_digit(s: &mut String, d: u64)
    requires
        d < 10,
    ensures
        final(s)@ == old(s)@.push(dec_digit(d as nat)),
{
    if d == 0 {
        string_push_char(s, '0');
    } else if d == 1 {
        string_push_char(s, '1');
    } else if d == 2 {
        string_push_char(s, '2');
    } else if d == 3 {
        string_push_char(s, '3');
    } else if d == 4 {
        string_push_char(s, '4');
    } else if d == 5 {
        string_push_char(s, '5');
    } else if d == 6 {
        string_push_char(s, '6');
    } else if d == 7 {
        string_push_char(s, '7');
    } else if d == 8 {
        string_push_char(s, '8');
    } else {
        string_push_char(s, '9');
    }
}

/// Appends the decimal form of `n` to `s`.
pub fn push_u64_dec(s: &mut String, n: u64)
    ensures
        final(s)@ == old(s)@ + dec_str(n as nat),
    decreases n,
{
    if n < 10 {
        push_digit(s, n);
        proof {
            assert(old(s)@ + dec_str(n as nat) =~= old(s)@.push(dec_digit((n % 10) as nat)));
        }
    } else {
        push_u64_dec(s, n / 10);
        push_digit(s, n % 10);
        proof {
            assert(old(s)@ + dec_str(n as nat) =~= (old(s)@ + dec_str((n / 10) as nat)).push(
                dec_digit((n % 10) as nat)));
        }
    }
}

/// The decimal form of `n` as a fresh string.
pub fn u64_to_dec(n: u64) -> (r: String)
    ensures
        r@ == dec_str(n as nat),
{
    let mut s = String::new();
    push_u64_dec(&mut s, n);
    proof {
        assert(Seq::<char>::empty() + dec_str(n as nat) =~= dec_str(n as nat));
    }
    s
}

} // verus!
