//! Percent-decoding of URL path bytes.
//!
//! A `%` followed by two hexadecimal digits stands for the byte those digits
//! spell; a `%` not followed by two hexadecimal digits is malformed and
//! passes through as a literal byte, as does every other byte.

use vstd::prelude::*;

verus! {

/// `%` in ASCII.
pub const PERCENT: u8 = 37;

/// True of the bytes that can stand as a hexadecimal digit, in either case.
pub open spec fn is_hex_digit(b: u8) -> bool {
    (48 <= b && b <= 57) || (65 <= b && b <= 70) || (97 <= b && b <= 102)
}

/// Numeric value of a hexadecimal digit byte.
pub open spec fn hex_value(b: u8) -> u8 {
    if 48 <= b && b <= 57 {
        (b - 48) as u8
    } else if 65 <= b && b <= 70 {
        (b - 55) as u8
    } else if 97 <= b && b <= 102 {
        (b - 87) as u8
    } else {
        0
    }
}

/// The percent-decoding of `s`: each well-formed `%XX` escape becomes one
/// byte; any other byte, a malformed `%` included, is kept as it stands.
pub open spec fn decoded(s: Seq<u8>) -> Seq<u8>
    decreases s.len(),
{
    if s.len() == 0 {
        Seq::empty()
    } else if s.len() >= 3 && s[0] == PERCENT && is_hex_digit(s[1]) && is_hex_digit(s[2]) {
        seq![(hex_value(s[1]) * 16 + hex_value(s[2])) as u8] + decoded(s.skip(3))
    } else {
        seq![s[0]] + decoded(s.skip(1))
    }
}

fn is_hex_digit_exec(b: u8) -> (r: bool)
    ensures
        r == is_hex_digit(b),
{
    (48 <= b && b <= 57) || (65 <= b && b <= 70) || (97 <= b && b <= 102)
}

fn hex_value_exec(b: u8) -> (r: u8)
    requires
        is_hex_digit(b),
    ensures
        r == hex_value(b),
        r <= 15,
{
    if 48 <= b && b <= 57 {
        b - 48
    } else if 65 <= b && b <= 70 {
        b - 55
    } else {
        b - 87
    }
}

/// Decode every `%XX` escape in `s`, keeping malformed escapes literal.
pub fn percent_decode(s: &Vec<u8>) -> (out: Vec<u8>)
    ensures
        out@ == decoded(s@),
{
    let mut out: Vec<u8> = Vec::new();
    let mut i: usize = 0;
    proof {
        assert(s@.skip(0) =~= s@);
        assert(out@ + decoded(s@) =~= decoded(s@));
    }
    while i < s.len()
        invariant
            i <= s@.len(),
            decoded(s@) == out@ + decoded(s@.skip(i as int)),
        decreases s@.len() - i,
    {
        if s[i] == PERCENT && s.len() > 2 && i < s.len() - 2 && is_hex_digit_exec(s[i + 1])
            && is_hex_digit_exec(s[i + 2]) {
            let hi = hex_value_exec(s[i + 1]);
            let lo = hex_value_exec(s[i + 2]);
            let b: u8 = hi * 16 + lo;
            proof {
                assert(s@.skip(i as int).len() >= 3);
                assert(s@.skip(i as int)[0] == s@[i as int]);
                assert(s@.skip(i as int)[1] == s@[i as int + 1]);
                assert(s@.skip(i as int)[2] == s@[i as int + 2]);
                assert(s@.skip(i as int).skip(3) =~= s@.skip(i as int + 3));
                assert(decoded(s@.skip(i as int)) == seq![b] + decoded(s@.skip(i as int + 3)));
                assert(out@.push(b) + decoded(s@.skip(i as int + 3)) =~= out@ + (seq![b]
                    + decoded(s@.skip(i as int + 3))));
            }
            out.push(b);
            i = i + 3;
        } else {
            let b = s[i];
            proof {
                assert(!(s@.skip(i as int).len() >= 3 && s@.skip(i as int)[0] == PERCENT
                    && is_hex_digit(s@.skip(i as int)[1]) && is_hex_digit(s@.skip(i as int)[2])));
                assert(s@.skip(i as int)[0] == s@[i as int]);
                assert(s@.skip(i as int).skip(1) =~= s@.skip(i as int + 1));
                assert(decoded(s@.skip(i as int)) == seq![b] + decoded(s@.skip(i as int + 1)));
                assert(out@.push(b) + decoded(s@.skip(i as int + 1)) =~= out@ + (seq![b]
                    + decoded(s@.skip(i as int + 1))));
            }
            out.push(b);
            i = i + 1;
        }
    }
    proof {
        assert(s@.skip(i as int) =~= Seq::<u8>::empty());
        assert(out@ + decoded(Seq::<u8>::empty()) =~= out@);
    }
    out
}

/// A leading byte that cannot begin an escape survives decoding in place.
pub proof fn lemma_decoded_keeps_first(s: Seq<u8>)
    requires
        s.len() > 0,
        s[0] != PERCENT,
    ensures
        decoded(s).len() > 0,
        decoded(s)[0] == s[0],
{
}

} // verus!
