//! The JSON values the decoder emits, as a mathematical datatype, and their
//! byte-exact rendering. Every decoder contract states its output as the
//! rendering of such a value, so emitted records are well-formed JSON by
//! construction.

use vstd::prelude::*;
use crate::hexjson::hex_json;
use crate::hexjson::json_string;
use vstd::string::StringSliceAdditionalSpecFns;

verus! {

/// A JSON value as the decoder produces it: a hex string for a primitive
/// leaf, an object of key/value pairs in emission order, an array, or null.
pub enum Jv {
    Null,
    Hex(Seq<u8>),
    Obj(Seq<(Seq<u8>, Jv)>),
    Arr(Seq<Jv>),
}

/// The byte rendering of a JSON value. Object keys are JSON-escaped and
/// double-quoted; hex leaves are double-quoted lowercase hex strings.
pub open spec fn render(v: Jv) -> Seq<u8>
    decreases v,
{
    match v {
        Jv::Null => "null".spec_bytes(),
        Jv::Hex(b) => hex_json(b),
        Jv::Obj(ps) => seq![123u8] + render_pairs(ps) + seq![125u8],
        Jv::Arr(vs) => seq![91u8] + render_items(vs) + seq![93u8],
    }
}

/// One object member: escaped key, colon, value.
pub open spec fn render_pair(p: (Seq<u8>, Jv)) -> Seq<u8>
    decreases p,
{
    json_string(p.0) + seq![58u8] + render(p.1)
}

/// Object members joined by commas.
pub open spec fn render_pairs(ps: Seq<(Seq<u8>, Jv)>) -> Seq<u8>
    decreases ps,
{
    if ps.len() == 0 {
        Seq::empty()
    } else if ps.len() == 1 {
        render_pair(ps[0])
    } else {
        render_pair(ps[0]) + seq![44u8] + render_pairs(ps.drop_first())
    }
}

/// Array items joined by commas.
pub open spec fn render_items(vs: Seq<Jv>) -> Seq<u8>
    decreases vs,
{
    if vs.len() == 0 {
        Seq::empty()
    } else if vs.len() == 1 {
        render(vs[0])
    } else {
        render(vs[0]) + seq![44u8] + render_items(vs.drop_first())
    }
}

/// Appending a member renders as the old members, a comma when any came
/// before, and the new member.
pub proof fn lemma_render_pairs_push(ps: Seq<(Seq<u8>, Jv)>, p: (Seq<u8>, Jv))
    ensures
        render_pairs(ps.push(p)) == if ps.len() == 0 {
            render_pair(p)
        } else {
            render_pairs(ps) + seq![44u8] + render_pair(p)
        },
    decreases ps.len(),
{
    if ps.len() == 0 {
        assert(ps.push(p)[0] == p);
        assert(ps.push(p).len() == 1);
    } else if ps.len() == 1 {
        assert(ps.push(p)[0] == ps[0]);
        assert(ps.push(p).drop_first() =~= ps.drop_first().push(p));
        assert(ps.drop_first().len() == 0);
        lemma_render_pairs_push(ps.drop_first(), p);
    } else {
        assert(ps.push(p)[0] == ps[0]);
        assert(ps.push(p).drop_first() =~= ps.drop_first().push(p));
        lemma_render_pairs_push(ps.drop_first(), p);
        assert((render_pair(ps[0]) + seq![44u8] + (render_pairs(ps.drop_first()) + seq![44u8]
            + render_pair(p))) =~= (render_pair(ps[0]) + seq![44u8] + render_pairs(
            ps.drop_first(),
        )) + seq![44u8] + render_pair(p));
    }
}

/// Appending an item renders as the old items, a comma when any came
/// before, and the new item.
pub proof fn lemma_render_items_push(vs: Seq<Jv>, v: Jv)
    ensures
        render_items(vs.push(v)) == if vs.len() == 0 {
            render(v)
        } else {
            render_items(vs) + seq![44u8] + render(v)
        },
    decreases vs.len(),
{
    if vs.len() == 0 {
        assert(vs.push(v)[0] == v);
        assert(vs.push(v).len() == 1);
    } else if vs.len() == 1 {
        assert(vs.push(v)[0] == vs[0]);
        assert(vs.push(v).drop_first() =~= vs.drop_first().push(v));
        assert(vs.drop_first().len() == 0);
        lemma_render_items_push(vs.drop_first(), v);
    } else {
        assert(vs.push(v)[0] == vs[0]);
        assert(vs.push(v).drop_first() =~= vs.drop_first().push(v));
        lemma_render_items_push(vs.drop_first(), v);
        assert((render(vs[0]) + seq![44u8] + (render_items(vs.drop_first()) + seq![44u8] + render(
            v,
        ))) =~= (render(vs[0]) + seq![44u8] + render_items(vs.drop_first())) + seq![44u8] + render(
            v,
        ));
    }
}

/// A JSON Lines stream: each value rendered and closed by a newline.
pub open spec fn render_lines(vs: Seq<Jv>) -> Seq<u8>
    decreases vs,
{
    if vs.len() == 0 {
        Seq::empty()
    } else {
        render(vs[0]) + seq![10u8] + render_lines(vs.drop_first())
    }
}

} // verus!
