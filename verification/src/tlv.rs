//! BER/DER TLV reading: one tag-length-value triple is parsed from a byte
//! buffer at a given offset, with long-form tags, long-form definite lengths
//! and indefinite lengths closed by an end-of-contents sentinel.

use vstd::prelude::*;

verus! {

/// A parsed TLV, as absolute offsets into the buffer it was read from.
/// `raw` is `data[start..end]`; the contents are `data[value_start..value_end]`.
#[derive(Clone, Copy, PartialEq, Eq, Structural, Debug)]
pub struct Tlv {
    pub tag_class: u8,
    pub constructed: bool,
    pub tag_num: u32,
    pub start: usize,
    pub value_start: usize,
    pub value_end: usize,
    pub end: usize,
}

/// The mathematical image of a `Tlv`, with unbounded offsets.
pub struct TlvG {
    pub tag_class: u8,
    pub constructed: bool,
    pub tag_num: u32,
    pub start: int,
    pub value_start: int,
    pub value_end: int,
    pub end: int,
}

impl View for Tlv {
    type V = TlvG;

    open spec fn view(&self) -> TlvG {
        TlvG {
            tag_class: self.tag_class,
            constructed: self.constructed,
            tag_num: self.tag_num,
            start: self.start as int,
            value_start: self.value_start as int,
            value_end: self.value_end as int,
            end: self.end as int,
        }
    }
}

/// The contents of a TLV, as a slice of the buffer it was read from.
pub open spec fn value_of(data: Seq<u8>, t: TlvG) -> Seq<u8> {
    data.subrange(t.value_start, t.value_end)
}

/// The whole encoding of a TLV, header and trailer included.
pub open spec fn raw_of(data: Seq<u8>, t: TlvG) -> Seq<u8> {
    data.subrange(t.start, t.end)
}

/// Base-128 continuation octets of a long-form tag number, truncating to
/// 32 bits as the accumulator is shifted.
pub open spec fn spec_long_tag(data: Seq<u8>, off: int, acc: u32) -> Option<(u32, int)>
    decreases data.len() - off,
{
    if off < 0 || off >= data.len() {
        None
    } else {
        let b = data[off];
        let acc2 = (acc << 7) | ((b & 0x7f) as u32);
        if b & 0x80 == 0 {
            Some((acc2, off + 1))
        } else {
            spec_long_tag(data, off + 1, acc2)
        }
    }
}

/// Class, constructed bit, tag number and the offset just past the tag.
pub open spec fn spec_skip_tag(data: Seq<u8>, off: int) -> Option<(u8, bool, u32, int)> {
    if off < 0 || off >= data.len() {
        None
    } else {
        let tb = data[off];
        let class = (tb >> 6) & 3;
        let cons = ((tb >> 5) & 1) != 0;
        let low = tb & 0x1f;
        if low == 31 {
            match spec_long_tag(data, off + 1, 0) {
                None => None,
                Some((num, next)) => Some((class, cons, num, next)),
            }
        } else {
            Some((class, cons, low as u32, off + 1))
        }
    }
}

/// A parsed length field.
pub enum LenFormG {
    Indefinite { next: int },
    Definite { len: int, next: int },
}

/// Big-endian accumulation of `n` length octets, truncating to the machine
/// word as the accumulator is shifted.
pub open spec fn spec_len_acc(data: Seq<u8>, off: int, n: int, acc: usize) -> usize
    decreases n,
{
    if n <= 0 {
        acc
    } else {
        spec_len_acc(data, off + 1, n - 1, (acc << 8) | (data[off] as usize))
    }
}

/// The length octet(s) at `off`: short form, long definite form, or the
/// indefinite marker 0x80 (admitted only on a constructed TLV).
pub open spec fn spec_parse_len(data: Seq<u8>, off: int, constructed: bool) -> Option<LenFormG> {
    if off < 0 || off >= data.len() {
        None
    } else {
        let lb = data[off];
        if lb == 0x80 {
            if constructed {
                Some(LenFormG::Indefinite { next: off + 1 })
            } else {
                None
            }
        } else if lb & 0x80 != 0 {
            let n = (lb & 0x7f) as int;
            if off + 1 + n > data.len() {
                None
            } else {
                Some(
                    LenFormG::Definite {
                        len: spec_len_acc(data, off + 1, n, 0) as int,
                        next: off + 1 + n,
                    },
                )
            }
        } else {
            Some(LenFormG::Definite { len: lb as int, next: off + 1 })
        }
    }
}

/// The offset just past the end-of-contents sentinel that closes an
/// indefinite-length TLV whose contents start at `off`, walking the inner
/// TLV stream and tracking the nesting depth of indefinite lengths.
pub open spec fn spec_find_eoc(data: Seq<u8>, off: int, depth: int) -> Option<int>
    decreases data.len() - off,
    via spec_find_eoc_dec
{
    if off < 0 || off + 1 >= data.len() {
        None
    } else if data[off] == 0 && data[off + 1] == 0 {
        if depth == 1 {
            Some(off + 2)
        } else {
            spec_find_eoc(data, off + 2, depth - 1)
        }
    } else {
        match spec_skip_tag(data, off) {
            None => None,
            Some((_class, cons, _num, o1)) => match spec_parse_len(data, o1, cons) {
                None => None,
                Some(LenFormG::Indefinite { next }) => spec_find_eoc(data, next, depth + 1),
                Some(LenFormG::Definite { len, next }) => if next + len > data.len() {
                    None
                } else {
                    spec_find_eoc(data, next + len, depth)
                },
            },
        }
    }
}

#[via_fn]
proof fn spec_find_eoc_dec(data: Seq<u8>, off: int, depth: int) {
    if 0 <= off && off + 1 < data.len() && !(data[off] == 0 && data[off + 1] == 0) {
        lemma_skip_tag_bounds(data, off);
        match spec_skip_tag(data, off) {
            Some((_c, cons, _n, o1)) => {
                lemma_parse_len_bounds(data, o1, cons);
            },
            None => {},
        }
    }
}

pub proof fn lemma_long_tag_bounds(data: Seq<u8>, off: int, acc: u32)
    ensures
        spec_long_tag(data, off, acc) matches Some(p) ==> off < p.1 <= data.len(),
    decreases data.len() - off,
{
    if 0 <= off && off < data.len() {
        let b = data[off];
        if b & 0x80 != 0 {
            lemma_long_tag_bounds(data, off + 1, (acc << 7) | ((b & 0x7f) as u32));
        }
    }
}

pub proof fn lemma_skip_tag_bounds(data: Seq<u8>, off: int)
    ensures
        spec_skip_tag(data, off) matches Some(h) ==> off < h.3 <= data.len(),
{
    if 0 <= off && off < data.len() {
        lemma_long_tag_bounds(data, off + 1, 0);
    }
}

pub proof fn lemma_parse_len_bounds(data: Seq<u8>, off: int, constructed: bool)
    ensures
        spec_parse_len(data, off, constructed) matches Some(LenFormG::Indefinite { next }) ==> off
            < next <= data.len(),
        spec_parse_len(data, off, constructed) matches Some(LenFormG::Definite { len, next })
            ==> off < next <= data.len() && 0 <= len,
{
}

pub proof fn lemma_find_eoc_bounds(data: Seq<u8>, off: int, depth: int)
    ensures
        spec_find_eoc(data, off, depth) matches Some(e) ==> off + 2 <= e <= data.len(),
    decreases data.len() - off,
{
    if 0 <= off && off + 1 < data.len() {
        if data[off] == 0 && data[off + 1] == 0 {
            if depth != 1 {
                lemma_find_eoc_bounds(data, off + 2, depth - 1);
            }
        } else {
            lemma_skip_tag_bounds(data, off);
            match spec_skip_tag(data, off) {
                Some((_c, cons, _n, o1)) => {
                    lemma_parse_len_bounds(data, o1, cons);
                    match spec_parse_len(data, o1, cons) {
                        Some(LenFormG::Indefinite { next }) => {
                            lemma_find_eoc_bounds(data, next, depth + 1);
                        },
                        Some(LenFormG::Definite { len, next }) => {
                            if next + len <= data.len() {
                                lemma_find_eoc_bounds(data, next + len, depth);
                            }
                        },
                        None => {},
                    }
                },
                None => {},
            }
        }
    }
}

/// One TLV parsed at `offset`: tag, then length, then either a definite run
/// of content bytes or an indefinite run closed by an end-of-contents pair.
pub open spec fn spec_parse_tlv(data: Seq<u8>, offset: int) -> Option<TlvG> {
    match spec_skip_tag(data, offset) {
        None => None,
        Some((class, cons, num, o1)) => match spec_parse_len(data, o1, cons) {
            None => None,
            Some(LenFormG::Indefinite { next }) => match spec_find_eoc(data, next, 1) {
                None => None,
                Some(eoc) => Some(
                    TlvG {
                        tag_class: class,
                        constructed: cons,
                        tag_num: num,
                        start: offset,
                        value_start: next,
                        value_end: eoc - 2,
                        end: eoc,
                    },
                ),
            },
            Some(LenFormG::Definite { len, next }) => if next + len > data.len() {
                None
            } else {
                Some(
                    TlvG {
                        tag_class: class,
                        constructed: cons,
                        tag_num: num,
                        start: offset,
                        value_start: next,
                        value_end: next + len,
                        end: next + len,
                    },
                )
            },
        },
    }
}

pub proof fn lemma_parse_tlv_bounds(data: Seq<u8>, offset: int)
    ensures
        spec_parse_tlv(data, offset) matches Some(t) ==> {
            &&& t.start == offset
            &&& offset + 2 <= t.end <= data.len()
            &&& offset < t.value_start <= t.value_end <= t.end
            &&& t.value_end == t.end || t.value_end + 2 == t.end
        },
{
    lemma_skip_tag_bounds(data, offset);
    match spec_skip_tag(data, offset) {
        Some((_c, cons, _n, o1)) => {
            lemma_parse_len_bounds(data, o1, cons);
            match spec_parse_len(data, o1, cons) {
                Some(LenFormG::Indefinite { next }) => {
                    lemma_find_eoc_bounds(data, next, 1);
                },
                _ => {},
            }
        },
        None => {},
    }
}

/// Tag round-trip: a parsed TLV consumes exactly its raw bytes — the raw
/// slice runs from the parse offset to the returned next offset — and the
/// contents are a suffix of the raw bytes, short of the two-byte
/// end-of-contents sentinel when the length was indefinite.
pub proof fn lemma_tag_round_trip(data: Seq<u8>, offset: int)
    requires
        spec_parse_tlv(data, offset) matches Some(t),
    ensures
        spec_parse_tlv(data, offset) matches Some(t) ==> {
            &&& raw_of(data, t).len() == t.end - offset
            &&& t.value_end == t.end ==> value_of(data, t) == raw_of(data, t).skip(
                t.value_start - offset,
            )
            &&& t.value_end + 2 == t.end ==> value_of(data, t) == raw_of(data, t).skip(
                t.value_start - offset,
            ).take(t.value_end - t.value_start)
        },
{
    lemma_parse_tlv_bounds(data, offset);
    let t = spec_parse_tlv(data, offset)->Some_0;
    assert(raw_of(data, t).len() == t.end - offset);
    if t.value_end == t.end {
        assert(value_of(data, t) =~= raw_of(data, t).skip(t.value_start - offset));
    } else {
        assert(value_of(data, t) =~= raw_of(data, t).skip(t.value_start - offset).take(
            t.value_end - t.value_start,
        ));
    }
}

#[verifier::loop_isolation(false)]
fn skip_tag(data: &[u8], offset: usize) -> (r: Option<(u8, bool, u32, usize)>)
    ensures
        match spec_skip_tag(data@, offset as int) {
            Some(h) => r matches Some(e) && e.0 == h.0 && e.1 == h.1 && e.2 == h.2 && e.3 == h.3,
            None => r is None,
        },
{
    let n = data.len();
    if offset >= n {
        return None;
    }
    let tb = data[offset];
    let class = (tb >> 6) & 3;
    let cons = ((tb >> 5) & 1) != 0;
    let low = tb & 0x1f;
    if low != 31 {
        return Some((class, cons, low as u32, offset + 1));
    }
    let mut off = offset + 1;
    let mut acc: u32 = 0;
    while off < n
        invariant
            n == data@.len(),
            off <= n,
            spec_long_tag(data@, offset + 1, 0) == spec_long_tag(data@, off as int, acc),
        decreases n - off,
    {
        let b = data[off];
        let acc2 = (acc << 7) | ((b & 0x7f) as u32);
        if b & 0x80 == 0 {
            return Some((class, cons, acc2, off + 1));
        }
        off = off + 1;
        acc = acc2;
    }
    None
}

#[verifier::loop_isolation(false)]
fn parse_len(data: &[u8], offset: usize, constructed: bool) -> (r: Option<(bool, usize, usize)>)
    ensures
        match spec_parse_len(data@, offset as int, constructed) {
            Some(LenFormG::Indefinite { next }) => r matches Some(e) && e.0 == true && e.2 == next,
            Some(LenFormG::Definite { len, next }) => r matches Some(e) && e.0 == false && e.1
                == len && e.2 == next,
            None => r is None,
        },
{
    let n = data.len();
    if offset >= n {
        return None;
    }
    let lb = data[offset];
    if lb == 0x80 {
        if constructed {
            return Some((true, 0, offset + 1));
        }
        return None;
    }
    if lb & 0x80 != 0 {
        let cnt = (lb & 0x7f) as usize;
        if cnt > n - (offset + 1) {
            return None;
        }
        let mut i: usize = 0;
        let mut acc: usize = 0;
        let mut off = offset + 1;
        while i < cnt
            invariant
                n == data@.len(),
                i <= cnt,
                off == offset + 1 + i,
                offset + 1 + cnt <= n,
                spec_len_acc(data@, offset + 1, cnt as int, 0) == spec_len_acc(
                    data@,
                    off as int,
                    cnt - i,
                    acc,
                ),
            decreases cnt - i,
        {
            acc = (acc << 8) | (data[off] as usize);
            off = off + 1;
            i = i + 1;
        }
        return Some((false, acc, offset + 1 + cnt));
    }
    Some((false, lb as usize, offset + 1))
}

/// The offset just past the end-of-contents sentinel closing an
/// indefinite-length TLV whose contents begin at `offset`, or `None` when
/// the stream is malformed or the sentinel is missing.
#[verifier::loop_isolation(false)]
pub fn find_eoc(data: &[u8], offset: usize) -> (r: Option<usize>)
    ensures
        match spec_find_eoc(data@, offset as int, 1) {
            Some(e) => r matches Some(x) && x == e,
            None => r is None,
        },
{
    let n = data.len();
    let mut off = offset;
    let mut depth: usize = 1;
    while off < n && off + 1 < n
        invariant
            n == data@.len(),
            depth >= 1,
            offset + 2 * depth <= off + 2,
            spec_find_eoc(data@, offset as int, 1) == spec_find_eoc(
                data@,
                off as int,
                depth as int,
            ),
        decreases n - off,
    {
        if data[off] == 0 && data[off + 1] == 0 {
            depth = depth - 1;
            off = off + 2;
            if depth == 0 {
                return Some(off);
            }
        } else {
            proof {
                lemma_skip_tag_bounds(data@, off as int);
            }
            let (_class, cons, _num, o1) = match skip_tag(data, off) {
                Some(h) => h,
                None => {
                    return None;
                },
            };
            proof {
                lemma_parse_len_bounds(data@, o1 as int, cons);
            }
            match parse_len(data, o1, cons) {
                Some((true, _len, next)) => {
                    depth = depth + 1;
                    off = next;
                },
                Some((false, len, next)) => {
                    if len > n - next {
                        return None;
                    }
                    off = next + len;
                },
                None => {
                    return None;
                },
            }
        }
    }
    None
}

/// Parse one TLV at `offset`. `None` is soft failure: a malformed or
/// truncated encoding, treated by callers as the end of their scope.
pub fn parse_tlv(data: &[u8], offset: usize) -> (r: Option<Tlv>)
    ensures
        match spec_parse_tlv(data@, offset as int) {
            Some(g) => r matches Some(t) && t@ == g,
            None => r is None,
        },
{
    let (class, cons, num, o1) = match skip_tag(data, offset) {
        Some(h) => h,
        None => {
            return None;
        },
    };
    proof {
        lemma_skip_tag_bounds(data@, offset as int);
        lemma_parse_len_bounds(data@, o1 as int, cons);
    }
    match parse_len(data, o1, cons) {
        Some((true, _len, o2)) => {
            proof {
                lemma_find_eoc_bounds(data@, o2 as int, 1);
            }
            match find_eoc(data, o2) {
                Some(eoc) => Some(
                    Tlv {
                        tag_class: class,
                        constructed: cons,
                        tag_num: num,
                        start: offset,
                        value_start: o2,
                        value_end: eoc - 2,
                        end: eoc,
                    },
                ),
                None => None,
            }
        },
        Some((false, len, o2)) => {
            let n = data.len();
            if len > n - o2 {
                return None;
            }
            Some(
                Tlv {
                    tag_class: class,
                    constructed: cons,
                    tag_num: num,
                    start: offset,
                    value_start: o2,
                    value_end: o2 + len,
                    end: o2 + len,
                },
            )
        },
        None => None,
    }
}

} // verus!
