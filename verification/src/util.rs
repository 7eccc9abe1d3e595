//! Small byte-string helpers shared by the schema compiler and the decoder.

use vstd::prelude::*;

verus! {

/// Byte-for-byte equality of two slices.
pub fn bytes_eq(a: &[u8], b: &[u8]) -> (r: bool)
    ensures
        r == (a@ == b@),
{
    let n = a.len();
    if n != b.len() {
        proof {
            assert(a@ != b@);
        }
        return false;
    }
    let mut i: usize = 0;
    while i < n
        invariant
            n == a@.len() == b@.len(),
            i <= n,
            forall|j: int| 0 <= j < i ==> a@[j] == b@[j],
        decreases n - i,
    {
        if a[i] != b[i] {
            return false;
        }
        i = i + 1;
    }
    proof {
        assert(a@ =~= b@);
    }
    true
}

/// The ASCII uppercase image of one byte.
pub open spec fn upper_byte(b: u8) -> u8 {
    if 97 <= b && b <= 122 {
        (b - 32) as u8
    } else {
        b
    }
}

/// The ASCII uppercase image of a byte string.
pub open spec fn upper_seq(s: Seq<u8>) -> Seq<u8> {
    s.map_values(|b: u8| upper_byte(b))
}

/// ASCII-uppercase a byte string.
pub fn to_ascii_upper(s: &[u8]) -> (r: Vec<u8>)
    ensures
        r@ == upper_seq(s@),
{
    let n = s.len();
    let mut out: Vec<u8> = Vec::new();
    let mut i: usize = 0;
    while i < n
        invariant
            n == s@.len(),
            i <= n,
            out@ == upper_seq(s@.take(i as int)),
        decreases n - i,
    {
        let b = s[i];
        if 97 <= b && b <= 122 {
            out.push(b - 32);
        } else {
            out.push(b);
        }
        proof {
            assert(out@ =~= upper_seq(s@.take(i + 1)));
        }
        i = i + 1;
    }
    proof {
        assert(s@.take(n as int) =~= s@);
    }
    out
}

/// Decimal parse of a run of ASCII digits, accumulating left to right;
/// `None` on a non-digit or when the value exceeds `u32::MAX`.
pub open spec fn spec_parse_u32_acc(s: Seq<u8>, i: int, acc: int) -> Option<u32>
    decreases s.len() - i,
{
    if i < 0 || i >= s.len() {
        Some(acc as u32)
    } else {
        let b = s[i];
        if b < 48 || b > 57 {
            None
        } else {
            let acc2 = acc * 10 + (b - 48);
            if acc2 > u32::MAX {
                None
            } else {
                spec_parse_u32_acc(s, i + 1, acc2)
            }
        }
    }
}

/// The numeric value of a decimal digit string, `None` when empty, holding
/// a non-digit, or too large for 32 bits.
pub open spec fn spec_parse_u32(s: Seq<u8>) -> Option<u32> {
    if s.len() == 0 {
        None
    } else {
        spec_parse_u32_acc(s, 0, 0)
    }
}

/// Parse an ASCII decimal digit string as a `u32`.
#[verifier::loop_isolation(false)]
pub fn parse_u32_digits(s: &[u8]) -> (r: Option<u32>)
    ensures
        r == spec_parse_u32(s@),
{
    let n = s.len();
    if n == 0 {
        return None;
    }
    let mut acc: u32 = 0;
    let mut i: usize = 0;
    while i < n
        invariant
            i <= n,
            spec_parse_u32_acc(s@, 0, 0) == spec_parse_u32_acc(s@, i as int, acc as int),
        decreases n - i,
    {
        let b = s[i];
        if b < 48 || b > 57 {
            return None;
        }
        let d = (b - 48) as u32;
        if acc > (u32::MAX - d) / 10 {
            proof {
                assert(acc * 10 + d > u32::MAX) by (nonlinear_arith)
                    requires
                        acc > (u32::MAX - d) / 10,
                        d < 10,
                ;
            }
            return None;
        }
        proof {
            assert(acc * 10 + d <= u32::MAX) by (nonlinear_arith)
                requires
            acc <= (u32::MAX - d) / 10,
                    d < 10,
            ;
        }
        acc = acc * 10 + d;
        i = i + 1;
    }
    Some(acc)
}

} // verus!
