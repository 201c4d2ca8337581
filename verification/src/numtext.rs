use crate::reader::utf8_to_string;
use vstd::prelude::*;

verus! {

/// The characters of a byte sequence read as ASCII.
pub open spec fn ascii_chars(b: Seq<u8>) -> Seq<char> {
    b.map_values(|x: u8| x as char)
}

/// The decimal digit for `d < 10`.
pub open spec fn digit_char(d: nat) -> char {
    (('0' as u8) + d) as char
}

/// The decimal representation of `n`, without leading zeros.
pub open spec fn dec_chars(n: nat) -> Seq<char>
    decreases n,
{
    if n < 10 {
        seq![digit_char(n)]
    } else {
        dec_chars(n / 10).push(digit_char(n % 10))
    }
}

/// The decimal representation of `x`, with a `-` before negative numbers.
pub open spec fn signed_chars(x: int) -> Seq<char> {
    if x < 0 {
        seq!['-'] + dec_chars((-x) as nat)
    } else {
        dec_chars(x as nat)
    }
}

/// The string of an ASCII byte sequence.
pub fn ascii_to_string(b: &[u8]) -> (r: String)
    requires
        forall|i: int| 0 <= i < b@.len() ==> b@[i] < 128,
    ensures
        r@ == ascii_chars(b@),
{
    let ghost c = ascii_chars(b@);
    proof {
        assert(vstd::utf8::is_ascii_chars(c));
        vstd::utf8::is_ascii_chars_encode_utf8(c);
        assert(vstd::utf8::encode_utf8(c) =~= b@);
        vstd::utf8::encode_utf8_valid_utf8(c);
        vstd::utf8::encode_utf8_decode_utf8(c);
    }
    match utf8_to_string(b) {
        Some(s) => s,
        None => {
            proof {
                assert(false);
            }
            String::new()
        },
    }
}

fn push_decimal(out: &mut Vec<u8>, n: u64)
    requires
        forall|i: int| 0 <= i < old(out)@.len() ==> old(out)@[i] < 128,
    ensures
        ascii_chars(final(out)@) == ascii_chars(old(out)@) + dec_chars(n as nat),
        forall|i: int| 0 <= i < final(out)@.len() ==> final(out)@[i] < 128,
    decreases n,
{
    let ghost before = out@;
    if n >= 10 {
        push_decimal(out, n / 10);
    }
    let ghost mid = out@;
    out.push(48u8 + (n % 10) as u8);
    proof {
        assert(ascii_chars(out@) =~= ascii_chars(mid).push(digit_char((n % 10) as nat)));
        if n >= 10 {
            assert(ascii_chars(out@) =~= ascii_chars(before) + dec_chars(n as nat));
        } else {
            assert(mid == before);
            assert(ascii_chars(out@) =~= ascii_chars(before) + dec_chars(n as nat));
        }
    }
}

/// The decimal text of an unsigned number.
pub fn decimal_string(n: u64) -> (r: String)
    ensures
        r@ == dec_chars(n as nat),
{
    let mut out: Vec<u8> = Vec::new();
    push_decimal(&mut out, n);
    assert(ascii_chars(Seq::<u8>::empty()) =~= Seq::<char>::empty());
    assert(ascii_chars(out@) =~= dec_chars(n as nat));
    ascii_to_string(out.as_slice())
}

/// The decimal text of a signed number.
pub fn signed_decimal_string(x: i64) -> (r: String)
    ensures
        r@ == signed_chars(x as int),
{
    let mut out: Vec<u8> = Vec::new();
    let magnitude: u64 = if x < 0 {
        out.push(45u8);
        (0i128 - x as i128) as u64
    } else {
        x as u64
    };
    let ghost before = out@;
    push_decimal(&mut out, magnitude);
    proof {
        if x < 0 {
            assert(ascii_chars(before) =~= seq!['-']);
        } else {
            assert(ascii_chars(before) =~= Seq::<char>::empty());
        }
        assert(ascii_chars(out@) =~= signed_chars(x as int));
    }
    ascii_to_string(out.as_slice())
}

} // verus!
