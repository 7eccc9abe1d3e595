//! Byte-level JSON token emission: lowercase hex strings, escaped string
//! keys, and decimal numbers, appended to a growing output buffer.

use vstd::prelude::*;

verus! {

/// The lowercase hex digit for a nibble.
pub open spec fn hex_digit(n: u8) -> u8 {
    if n < 10 {
        (48 + n) as u8
    } else {
        (87 + n) as u8
    }
}

/// Two lowercase hex digits for one byte, high nibble first.
pub open spec fn hex_of_byte(b: u8) -> Seq<u8> {
    seq![hex_digit(b / 16), hex_digit(b % 16)]
}

/// The lowercase hex encoding of a byte sequence.
pub open spec fn hex_seq(s: Seq<u8>) -> Seq<u8>
    decreases s.len(),
{
    if s.len() == 0 {
        Seq::empty()
    } else {
        hex_of_byte(s[0]) + hex_seq(s.drop_first())
    }
}

/// A double-quoted lowercase hex string.
pub open spec fn hex_json(s: Seq<u8>) -> Seq<u8> {
    seq![34u8] + hex_seq(s) + seq![34u8]
}

pub proof fn lemma_hex_seq_take_step(s: Seq<u8>, i: int)
    requires
        0 <= i < s.len(),
    ensures
        hex_seq(s.take(i + 1)) == hex_seq(s.take(i)) + hex_of_byte(s[i]),
    decreases i,
{
    if i == 0 {
        assert(s.take(1).drop_first() =~= Seq::<u8>::empty());
        assert(s.take(0) =~= Seq::<u8>::empty());
        assert(hex_seq(s.take(1)) =~= hex_seq(s.take(0)) + hex_of_byte(s[0]));
    } else {
        lemma_hex_seq_take_step(s.drop_first(), i - 1);
        assert(s.take(i + 1).drop_first() =~= s.drop_first().take(i));
        assert(s.take(i).drop_first() =~= s.drop_first().take(i - 1));
        assert(s.take(i + 1)[0] == s[0]);
        assert(s.take(i)[0] == s[0]);
        assert(s.drop_first()[i - 1] == s[i]);
        assert(hex_seq(s.take(i + 1)) == hex_of_byte(s[0]) + hex_seq(s.drop_first().take(i)));
        assert(hex_seq(s.take(i)) == hex_of_byte(s[0]) + hex_seq(s.drop_first().take(i - 1)));
        assert(hex_of_byte(s[0]) + (hex_seq(s.drop_first().take(i - 1)) + hex_of_byte(s[i]))
            =~= (hex_of_byte(s[0]) + hex_seq(s.drop_first().take(i - 1))) + hex_of_byte(s[i]));
    }
}

/// Every byte of a hex encoding is a lowercase hex digit.
pub proof fn lemma_hex_seq_digits(s: Seq<u8>)
    ensures
        hex_seq(s).len() == 2 * s.len(),
        forall|i: int|
            0 <= i < hex_seq(s).len() ==> (48 <= #[trigger] hex_seq(s)[i] <= 57 || 97 <= hex_seq(
                s,
            )[i] <= 102),
    decreases s.len(),
{
    if s.len() > 0 {
        lemma_hex_seq_digits(s.drop_first());
    }
}

fn hex_digit_of(nib: u8) -> (r: u8)
    requires
        nib < 16,
    ensures
        r == hex_digit(nib),
{
    if nib < 10 {
        48 + nib
    } else {
        87 + nib
    }
}

/// Append the lowercase hex encoding of `data`.
pub fn write_hex(out: &mut Vec<u8>, data: &[u8])
    ensures
        final(out)@ == old(out)@ + hex_seq(data@),
{
    let n = data.len();
    let mut i: usize = 0;
    proof {
        assert(data@.take(0) =~= Seq::<u8>::empty());
        assert(out@ =~= out@ + hex_seq(data@.take(0)));
    }
    while i < n
        invariant
            n == data@.len(),
            i <= n,
            out@ == old(out)@ + hex_seq(data@.take(i as int)),
        decreases n - i,
    {
        let b = data[i];
        out.push(hex_digit_of(b / 16));
        out.push(hex_digit_of(b % 16));
        proof {
            lemma_hex_seq_take_step(data@, i as int);
            assert(out@ =~= old(out)@ + hex_seq(data@.take(i + 1)));
        }
        i = i + 1;
    }
    proof {
        assert(data@.take(n as int) =~= data@);
    }
}

/// Append a double-quoted lowercase hex string.
pub fn write_hex_json(out: &mut Vec<u8>, data: &[u8])
    ensures
        final(out)@ == old(out)@ + hex_json(data@),
{
    out.push(34);
    write_hex(out, data);
    out.push(34);
    proof {
        assert(out@ =~= old(out)@ + hex_json(data@));
    }
}

/// The JSON escape of one byte: quote, backslash, newline, carriage return
/// and tab get two-character escapes, other control bytes a `\u00xx` escape,
/// and everything else passes through unchanged.
pub open spec fn esc_byte(b: u8) -> Seq<u8> {
    if b == 34 {
        seq![92u8, 34u8]
    } else if b == 92 {
        seq![92u8, 92u8]
    } else if b == 10 {
        seq![92u8, 110u8]
    } else if b == 13 {
        seq![92u8, 114u8]
    } else if b == 9 {
        seq![92u8, 116u8]
    } else if b < 32 {
        seq![92u8, 117u8, 48u8, 48u8, hex_digit(b / 16), hex_digit(b % 16)]
    } else {
        seq![b]
    }
}

/// The JSON escape of a byte sequence.
pub open spec fn esc_seq(s: Seq<u8>) -> Seq<u8>
    decreases s.len(),
{
    if s.len() == 0 {
        Seq::empty()
    } else {
        esc_byte(s[0]) + esc_seq(s.drop_first())
    }
}

/// A double-quoted JSON string with minimal escaping.
pub open spec fn json_string(s: Seq<u8>) -> Seq<u8> {
    seq![34u8] + esc_seq(s) + seq![34u8]
}

pub proof fn lemma_esc_seq_take_step(s: Seq<u8>, i: int)
    requires
        0 <= i < s.len(),
    ensures
        esc_seq(s.take(i + 1)) == esc_seq(s.take(i)) + esc_byte(s[i]),
    decreases i,
{
    if i == 0 {
        assert(s.take(1).drop_first() =~= Seq::<u8>::empty());
        assert(s.take(0) =~= Seq::<u8>::empty());
        assert(esc_seq(s.take(1)) =~= esc_seq(s.take(0)) + esc_byte(s[0]));
    } else {
        lemma_esc_seq_take_step(s.drop_first(), i - 1);
        assert(s.take(i + 1).drop_first() =~= s.drop_first().take(i));
        assert(s.take(i).drop_first() =~= s.drop_first().take(i - 1));
        assert(s.take(i + 1)[0] == s[0]);
        assert(s.take(i)[0] == s[0]);
        assert(s.drop_first()[i - 1] == s[i]);
        assert(esc_seq(s.take(i + 1)) == esc_byte(s[0]) + esc_seq(s.drop_first().take(i)));
        assert(esc_seq(s.take(i)) == esc_byte(s[0]) + esc_seq(s.drop_first().take(i - 1)));
        assert(esc_byte(s[0]) + (esc_seq(s.drop_first().take(i - 1)) + esc_byte(s[i])) =~= (
        esc_byte(s[0]) + esc_seq(s.drop_first().take(i - 1))) + esc_byte(s[i]));
    }
}

/// Append the JSON escape of `key`.
pub fn write_json_escaped(out: &mut Vec<u8>, key: &[u8])
    ensures
        final(out)@ == old(out)@ + esc_seq(key@),
{
    let n = key.len();
    let mut i: usize = 0;
    proof {
        assert(key@.take(0) =~= Seq::<u8>::empty());
        assert(out@ =~= out@ + esc_seq(key@.take(0)));
    }
    while i < n
        invariant
            n == key@.len(),
            i <= n,
            out@ == old(out)@ + esc_seq(key@.take(i as int)),
        decreases n - i,
    {
        let b = key[i];
        if b == 34 {
            out.push(92);
            out.push(34);
        } else if b == 92 {
            out.push(92);
            out.push(92);
        } else if b == 10 {
            out.push(92);
            out.push(110);
        } else if b == 13 {
            out.push(92);
            out.push(114);
        } else if b == 9 {
            out.push(92);
            out.push(116);
        } else if b < 32 {
            out.push(92);
            out.push(117);
            out.push(48);
            out.push(48);
            out.push(hex_digit_of(b / 16));
            out.push(hex_digit_of(b % 16));
        } else {
            out.push(b);
        }
        proof {
            lemma_esc_seq_take_step(key@, i as int);
            assert(out@ =~= old(out)@ + esc_seq(key@.take(i + 1)));
        }
        i = i + 1;
    }
    proof {
        assert(key@.take(n as int) =~= key@);
    }
}

/// Append a double-quoted JSON string encoding of `key`.
pub fn write_json_key(out: &mut Vec<u8>, key: &[u8])
    ensures
        final(out)@ == old(out)@ + json_string(key@),
{
    out.push(34);
    write_json_escaped(out, key);
    out.push(34);
    proof {
        assert(out@ =~= old(out)@ + json_string(key@));
    }
}

/// The decimal digits of `n`, most significant first.
pub open spec fn dec_digits(n: nat) -> Seq<u8>
    decreases n,
{
    if n < 10 {
        seq![(48 + n) as u8]
    } else {
        dec_digits(n / 10) + seq![(48 + n % 10) as u8]
    }
}

/// Append the decimal rendering of `n`.
pub fn write_u32_dec(out: &mut Vec<u8>, n: u32)
    ensures
        final(out)@ == old(out)@ + dec_digits(n as nat),
    decreases n,
{
    if n < 10 {
        out.push(48 + n as u8);
        proof {
            assert(out@ =~= old(out)@ + dec_digits(n as nat));
        }
    } else {
        write_u32_dec(out, n / 10);
        out.push(48 + (n % 10) as u8);
        proof {
            assert(out@ =~= old(out)@ + dec_digits(n as nat));
        }
    }
}

} // verus!
