//! Schema-directed decoding: a walk over the TLV stream that dispatches
//! each triple against the compiled schema and emits JSON tokens. The
//! mathematical model is a family of functions from bytes and schema to a
//! JSON value (`Jv`); every executable function appends exactly the
//! rendering of the value the model gives.
//!
//! Recursion is bounded by an explicit depth budget. The driver passes a
//! budget no real encoding can exhaust (`DECODE_FUEL`); a schema that names
//! itself in both a SEQUENCE OF and a CHOICE table could otherwise descend
//! forever without consuming input.

use vstd::prelude::*;
use crate::hexjson::dec_digits;
use crate::hexjson::write_hex_json;
use crate::hexjson::write_json_key;
use crate::hexjson::write_u32_dec;
use crate::jv::Jv;
use crate::jv::lemma_render_items_push;
use crate::jv::lemma_render_pairs_push;
use crate::jv::render;
use crate::jv::render_items;
use crate::jv::render_pair;
use crate::jv::render_pairs;
use crate::jv::render_lines;
use crate::schema::Asn1Schema;
use crate::schema::ChoiceAlt;
use crate::schema::FieldSpec;
use crate::schema::SYNTH_CHOICE_BASE;
use crate::schema::TagKey;
use crate::schema::assoc_find;
use crate::schema::assoc_get;
use crate::schema::spec_resolve;
use crate::schema::spec_knows_type;
use crate::schema::spec_universal_tag_for_type;
use crate::schema::tag_assoc_find;
use crate::schema::tag_assoc_get;
use crate::tlv::Tlv;
use crate::tlv::TlvG;
use crate::tlv::lemma_parse_tlv_bounds;
use crate::tlv::parse_tlv;
use crate::tlv::raw_of;
use crate::tlv::spec_parse_tlv;
use crate::tlv::value_of;
use vstd::slice::slice_subrange;
use vstd::string::StringSliceAdditionalSpecFns;

verus! {

/// The recursion budget the driver hands the decoder for each record.
pub const DECODE_FUEL: usize = usize::MAX;

/// The tag key of a parsed TLV.
pub open spec fn key_of(t: TlvG) -> TagKey {
    TagKey { class: t.tag_class, num: t.tag_num }
}

/// Whether a TLV would be read as one alternative of a CHOICE whose
/// alternatives carry no explicit tags: a declared outer tag matches by tag
/// key; a nested CHOICE matches when any of its own alternative keys does;
/// SEQUENCE and SET shapes match the universal constructed tags 16 and 17;
/// anything else matches its natural universal tag.
pub open spec fn spec_choice_alt_matches(
    s: &Asn1Schema,
    alt_type: Seq<u8>,
    cls: u8,
    num: u32,
    constructed: bool,
) -> bool {
    let rt = spec_resolve(s, alt_type);
    match assoc_get(s.type_outer_tag@, rt) {
        Some(tk) => cls == tk.class && num == tk.num,
        None => {
            let sub_hit = match assoc_get(s.choices@, rt) {
                Some(sub) => tag_assoc_get(sub@, TagKey { class: cls, num }) is Some,
                None => false,
            };
            if sub_hit {
                true
            } else if assoc_get(s.sequences@, rt) is Some || assoc_get(s.seq_of_types@, rt)
                is Some {
                cls == 0 && constructed && num == 16
            } else if assoc_get(s.sets@, rt) is Some || assoc_get(s.set_of_types@, rt) is Some {
                cls == 0 && constructed && num == 17
            } else {
                match spec_universal_tag_for_type(s, rt) {
                    Some(tk) => cls == tk.class && num == tk.num,
                    None => false,
                }
            }
        },
    }
}

/// The JSON value decoded from `data` as a value of type `tname`.
pub open spec fn jv_type(s: &Asn1Schema, data: Seq<u8>, tname: Seq<u8>, fuel: nat) -> Jv
    decreases fuel, 1int, 0int,
{
    if fuel == 0 {
        Jv::Hex(data)
    } else {
        let rt = spec_resolve(s, tname);
        match assoc_get(s.seq_of_types@, rt) {
            Some(elem) => Jv::Arr(jv_elems(s, data, elem@, 0, fuel)),
            None => match assoc_get(s.set_of_types@, rt) {
                Some(elem) => Jv::Arr(jv_elems(s, data, elem@, 0, fuel)),
                None => match assoc_get(s.choices@, rt) {
                    Some(alts) => jv_choice(s, data, alts@, fuel),
                    None => match assoc_get(s.sequences@, rt) {
                        Some(fields) => Jv::Obj(jv_pairs(s, data, fields@, 0, fuel)),
                        None => match assoc_get(s.sets@, rt) {
                            Some(fields) => Jv::Obj(jv_pairs(s, data, fields@, 0, fuel)),
                            None => Jv::Hex(data),
                        },
                    },
                },
            },
        }
    }
}

/// One member of a SEQUENCE or SET body: a known tag key becomes the named
/// field, decoded by its type; an unknown tag key becomes an
/// `unknown_tag_<class>_<num>` member holding the contents as hex.
pub open spec fn jv_member(
    s: &Asn1Schema,
    data: Seq<u8>,
    fields: Seq<(TagKey, FieldSpec)>,
    t: TlvG,
    fuel: nat,
) -> (Seq<u8>, Jv)
    decreases fuel, 0int, 0int,
        when fuel >= 1
{
    match tag_assoc_get(fields, key_of(t)) {
        Some(field) => {
            let rft = spec_resolve(s, field.field_type@);
            let body = if field.is_sequence_of || field.is_set_of {
                Jv::Arr(jv_elems(s, value_of(data, t), field.field_type@, 0, (fuel - 1) as nat))
            } else if assoc_get(s.choices@, rft) is Some {
                jv_type(s, raw_of(data, t), field.field_type@, (fuel - 1) as nat)
            } else if t.constructed {
                jv_type(s, value_of(data, t), field.field_type@, (fuel - 1) as nat)
            } else {
                Jv::Hex(value_of(data, t))
            };
            (field.name@, body)
        },
        None => {
            let key = "unknown_tag_".spec_bytes() + dec_digits(t.tag_class as nat) + seq![95u8]
                + dec_digits(t.tag_num as nat);
            (key, Jv::Hex(value_of(data, t)))
        },
    }
}

/// The members of a SEQUENCE or SET body from `off` on: TLVs in encoding
/// order until the contents end or a TLV is malformed.
pub open spec fn jv_pairs(
    s: &Asn1Schema,
    data: Seq<u8>,
    fields: Seq<(TagKey, FieldSpec)>,
    off: int,
    fuel: nat,
) -> Seq<(Seq<u8>, Jv)>
    decreases fuel, 0int, data.len() - off,
    via jv_pairs_dec
{
    if fuel == 0 || off >= data.len() {
        Seq::empty()
    } else {
        match spec_parse_tlv(data, off) {
            None => Seq::empty(),
            Some(t) => if t.end <= off {
                Seq::empty()
            } else {
                seq![jv_member(s, data, fields, t, fuel)] + jv_pairs(s, data, fields, t.end, fuel)
            },
        }
    }
}

#[via_fn]
proof fn jv_pairs_dec(
    s: &Asn1Schema,
    data: Seq<u8>,
    fields: Seq<(TagKey, FieldSpec)>,
    off: int,
    fuel: nat,
) {
    lemma_parse_tlv_bounds(data, off);
}

/// The items of a SEQUENCE OF or SET OF body from `off` on. A CHOICE
/// element is decoded from the item's raw bytes, so the nested resolver
/// sees the outer tag; any other constructed item from its contents; a
/// primitive item becomes hex.
pub open spec fn jv_elems(
    s: &Asn1Schema,
    data: Seq<u8>,
    elem: Seq<u8>,
    off: int,
    fuel: nat,
) -> Seq<Jv>
    decreases fuel, 0int, data.len() - off,
    via jv_elems_dec
{
    if fuel == 0 || off >= data.len() {
        Seq::empty()
    } else {
        match spec_parse_tlv(data, off) {
            None => Seq::empty(),
            Some(t) => if t.end <= off {
                Seq::empty()
            } else {
                let v = if assoc_get(s.choices@, spec_resolve(s, elem)) is Some {
                    jv_type(s, raw_of(data, t), elem, (fuel - 1) as nat)
                } else if t.constructed {
                    jv_type(s, value_of(data, t), elem, (fuel - 1) as nat)
                } else {
                    Jv::Hex(value_of(data, t))
                };
                seq![v] + jv_elems(s, data, elem, t.end, fuel)
            },
        }
    }
}

#[via_fn]
proof fn jv_elems_dec(s: &Asn1Schema, data: Seq<u8>, elem: Seq<u8>, off: int, fuel: nat) {
    lemma_parse_tlv_bounds(data, off);
}

/// A matched alternative of an untagged CHOICE: the alternative's contents
/// when its type carries an outer tag, its raw bytes when its type is
/// itself a CHOICE, its contents otherwise.
pub open spec fn jv_synth_emit(
    s: &Asn1Schema,
    alt: ChoiceAlt,
    base: Seq<u8>,
    cand: TlvG,
    fuel: nat,
) -> Jv
    decreases fuel, 0int, 0int,
        when fuel >= 1
{
    let f_rt = spec_resolve(s, alt.alt_type@);
    if assoc_get(s.type_outer_tag@, f_rt) is Some {
        jv_type(s, value_of(base, cand), alt.alt_type@, (fuel - 1) as nat)
    } else if assoc_get(s.choices@, f_rt) is Some {
        jv_type(s, raw_of(base, cand), alt.alt_type@, (fuel - 1) as nat)
    } else {
        jv_type(s, value_of(base, cand), alt.alt_type@, (fuel - 1) as nat)
    }
}

/// The ordered probe of the synthetic alternatives in `rest` against the
/// candidates: the outer TLV, then the first TLV inside a constructed
/// outer or inside an OCTET STRING wrapper.
pub open spec fn jv_choice_synth(
    s: &Asn1Schema,
    rest: Seq<(TagKey, ChoiceAlt)>,
    data: Seq<u8>,
    outer: TlvG,
    inner: Seq<u8>,
    c1: Option<TlvG>,
    c2: Option<TlvG>,
    fuel: nat,
) -> Jv
    decreases fuel, 0int, rest.len(),
{
    if fuel == 0 || rest.len() == 0 {
        Jv::Obj(seq![("unknown_alternative".spec_bytes(), Jv::Hex(raw_of(data, outer)))])
    } else {
        let k = rest[0].0;
        let alt = rest[0].1;
        if k.class == 3 && k.num >= SYNTH_CHOICE_BASE {
            if spec_choice_alt_matches(
                s,
                alt.alt_type@,
                outer.tag_class,
                outer.tag_num,
                outer.constructed,
            ) {
                Jv::Obj(seq![(alt.name@, jv_synth_emit(s, alt, data, outer, fuel))])
            } else if c1 matches Some(c) && spec_choice_alt_matches(
                s,
                alt.alt_type@,
                c.tag_class,
                c.tag_num,
                c.constructed,
            ) {
                Jv::Obj(
                    seq![(alt.name@, jv_synth_emit(s, alt, inner, c1->Some_0, fuel))],
                )
            } else if c2 matches Some(c) && spec_choice_alt_matches(
                s,
                alt.alt_type@,
                c.tag_class,
                c.tag_num,
                c.constructed,
            ) {
                Jv::Obj(
                    seq![(alt.name@, jv_synth_emit(s, alt, inner, c2->Some_0, fuel))],
                )
            } else {
                jv_choice_synth(s, rest.drop_first(), data, outer, inner, c1, c2, fuel)
            }
        } else {
            jv_choice_synth(s, rest.drop_first(), data, outer, inner, c1, c2, fuel)
        }
    }
}

/// A CHOICE value: parse the outer TLV, form the candidates, take the
/// first candidate whose tag key is a tagged alternative, else probe the
/// synthetic alternatives in order, else report the whole encoding as
/// `unknown_alternative`. Unparseable bytes become null.
pub open spec fn jv_choice(
    s: &Asn1Schema,
    data: Seq<u8>,
    alts: Seq<(TagKey, ChoiceAlt)>,
    fuel: nat,
) -> Jv
    decreases fuel, 0int, alts.len() + 1,
{
    if fuel == 0 {
        Jv::Null
    } else {
        match spec_parse_tlv(data, 0) {
            None => Jv::Null,
            Some(outer) => {
                let inner = value_of(data, outer);
                let c1 = if outer.constructed {
                    spec_parse_tlv(inner, 0)
                } else {
                    None
                };
                let c2 = if outer.tag_class == 0 && !outer.constructed && outer.tag_num == 4
                    && inner.len() > 0 && inner[0] != 0 {
                    spec_parse_tlv(inner, 0)
                } else {
                    None
                };
                if tag_assoc_get(alts, key_of(outer)) is Some {
                    let alt = tag_assoc_get(alts, key_of(outer))->Some_0;
                    Jv::Obj(
                        seq![
                            (
                                alt.name@,
                                jv_type(s, value_of(data, outer), alt.alt_type@, (fuel - 1) as nat),
                            ),
                        ],
                    )
                } else if c1 matches Some(c) && tag_assoc_get(alts, key_of(c)) is Some {
                    let alt = tag_assoc_get(alts, key_of(c1->Some_0))->Some_0;
                    Jv::Obj(
                        seq![
                            (
                                alt.name@,
                                jv_type(
                                    s,
                                    value_of(inner, c1->Some_0),
                                    alt.alt_type@,
                                    (fuel - 1) as nat,
                                ),
                            ),
                        ],
                    )
                } else if c2 matches Some(c) && tag_assoc_get(alts, key_of(c)) is Some {
                    let alt = tag_assoc_get(alts, key_of(c2->Some_0))->Some_0;
                    Jv::Obj(
                        seq![
                            (
                                alt.name@,
                                jv_type(
                                    s,
                                    value_of(inner, c2->Some_0),
                                    alt.alt_type@,
                                    (fuel - 1) as nat,
                                ),
                            ),
                        ],
                    )
                } else {
                    jv_choice_synth(s, alts, data, outer, inner, c1, c2, fuel)
                }
            },
        }
    }
}

impl Asn1Schema {
    /// Whether a TLV with the given class, number and constructed bit reads
    /// as a value of `alt_type` when probing an untagged CHOICE.
    pub fn choice_alt_matches_tlv(
        &self,
        alt_type: &[u8],
        cls: u8,
        num: u32,
        constructed: bool,
    ) -> (r: bool)
        ensures
            r == spec_choice_alt_matches(self, alt_type@, cls, num, constructed),
    {
        let rt = self.resolve_alias(alt_type);
        if let Some(tk) = assoc_find(&self.type_outer_tag, rt) {
            return cls == tk.class && num == tk.num;
        }
        if let Some(sub) = assoc_find(&self.choices, rt) {
            if tag_assoc_find(sub, TagKey { class: cls, num }).is_some() {
                return true;
            }
        }
        if assoc_find(&self.sequences, rt).is_some() || assoc_find(
            &self.seq_of_types,
            rt,
        ).is_some() {
            return cls == 0 && constructed && num == 16;
        }
        if assoc_find(&self.sets, rt).is_some() || assoc_find(&self.set_of_types, rt).is_some() {
            return cls == 0 && constructed && num == 17;
        }
        match self.universal_tag_for_type(rt) {
            Some(tk) => cls == tk.class && num == tk.num,
            None => false,
        }
    }

    /// Decode `data` as a value of `tname`, appending the rendering of
    /// the model's JSON value for it.
    pub fn write_type(&self, data: &[u8], tname: &[u8], out: &mut Vec<u8>, fuel: usize)
        ensures
            final(out)@ == old(out)@ + render(jv_type(self, data@, tname@, fuel as nat)),
        decreases fuel, 1int, 0int,
    {
        if fuel == 0 {
            write_hex_json(out, data);
            return ;
        }
        let rt = self.resolve_alias(tname);
        if let Some(elem) = assoc_find(&self.seq_of_types, rt) {
            self.write_sequence_of(data, elem.as_slice(), out, fuel);
            return ;
        }
        if let Some(elem) = assoc_find(&self.set_of_types, rt) {
            self.write_sequence_of(data, elem.as_slice(), out, fuel);
            return ;
        }
        if let Some(alts) = assoc_find(&self.choices, rt) {
            self.write_choice(data, alts, out, fuel);
            return ;
        }
        if let Some(fields) = assoc_find(&self.sequences, rt) {
            self.write_sequence(data, fields, out, fuel);
            return ;
        }
        if let Some(fields) = assoc_find(&self.sets, rt) {
            self.write_sequence(data, fields, out, fuel);
            return ;
        }
        write_hex_json(out, data);
    }

    /// Emit one member of a SEQUENCE or SET body: key, colon, value.
    fn write_member(
        &self,
        data: &[u8],
        fields: &Vec<(TagKey, FieldSpec)>,
        t: &Tlv,
        out: &mut Vec<u8>,
        fuel: usize,
    )
        requires
            fuel >= 1,
            spec_parse_tlv(data@, t@.start) == Some(t@),
        ensures
            final(out)@ == old(out)@ + render_pair(jv_member(self, data@, fields@, t@, fuel as nat)),
        decreases fuel, 0int, 0int,
    {
        proof {
            lemma_parse_tlv_bounds(data@, t@.start);
        }
        let key = TagKey { class: t.tag_class, num: t.tag_num };
        let value_slice = slice_subrange(data, t.value_start, t.value_end);
        match tag_assoc_find(fields, key) {
            Some(field) => {
                write_json_key(out, field.name.as_slice());
                out.push(58);
                let rft = self.resolve_alias(field.field_type.as_slice());
                if field.is_sequence_of || field.is_set_of {
                    self.write_sequence_of(value_slice, field.field_type.as_slice(), out, fuel - 1);
                } else if assoc_find(&self.choices, rft).is_some() {
                    let raw_slice = slice_subrange(data, t.start, t.end);
                    self.write_type(raw_slice, field.field_type.as_slice(), out, fuel - 1);
                } else if t.constructed {
                    self.write_type(value_slice, field.field_type.as_slice(), out, fuel - 1);
                } else {
                    write_hex_json(out, value_slice);
                }
            },
            None => {
                let mut keybuf: Vec<u8> = Vec::new();
                keybuf.extend_from_slice("unknown_tag_".as_bytes());
                write_u32_dec(&mut keybuf, t.tag_class as u32);
                keybuf.push(95);
                write_u32_dec(&mut keybuf, t.tag_num);
                proof {
                    assert(keybuf@ =~= "unknown_tag_".spec_bytes() + dec_digits(t@.tag_class as nat)
                        + seq![95u8] + dec_digits(t@.tag_num as nat));
                }
                write_json_key(out, keybuf.as_slice());
                out.push(58);
                write_hex_json(out, value_slice);
            },
        }
    }

    /// Decode the body of a SEQUENCE or SET against its field table,
    /// emitting one member per TLV.
    #[verifier::loop_isolation(false)]
    fn write_sequence(
        &self,
        data: &[u8],
        fields: &Vec<(TagKey, FieldSpec)>,
        out: &mut Vec<u8>,
        fuel: usize,
    )
        ensures
            final(out)@ == old(out)@ + render(
                Jv::Obj(jv_pairs(self, data@, fields@, 0, fuel as nat)),
            ),
        decreases fuel, 0int, 1int,
    {
        out.push(123);
        let ghost full = jv_pairs(self, data@, fields@, 0, fuel as nat);
        let ghost done = Seq::<(Seq<u8>, Jv)>::empty();
        let mut offset: usize = 0;
        let mut first = true;
        let n = data.len();
        while offset < n
            invariant
                n == data@.len(),
                offset <= n,
                full == done + jv_pairs(self, data@, fields@, offset as int, fuel as nat),
                first <==> done.len() == 0,
                out@ == old(out)@ + seq![123u8] + render_pairs(done),
            decreases n - offset,
        {
            if fuel == 0 {
                break ;
            }
            let t = match parse_tlv(data, offset) {
                Some(t) => t,
                None => { break ; },
            };
            proof {
                lemma_parse_tlv_bounds(data@, offset as int);
            }
            if t.end <= offset {
                break ;
            }
            let ghost member = jv_member(self, data@, fields@, t@, fuel as nat);
            proof {
                assert(jv_pairs(self, data@, fields@, offset as int, fuel as nat) == seq![member]
                    + jv_pairs(self, data@, fields@, t.end as int, fuel as nat));
            }
            if !first {
                out.push(44);
            }
            self.write_member(data, fields, &t, out, fuel);
            proof {
                lemma_render_pairs_push(done, member);
                done = done.push(member);
                assert(out@ =~= old(out)@ + seq![123u8] + render_pairs(done));
                assert(full == done + jv_pairs(self, data@, fields@, t.end as int, fuel as nat));
            }
            first = false;
            offset = t.end;
        }
        proof {
            assert(jv_pairs(self, data@, fields@, offset as int, fuel as nat)
                =~= Seq::<(Seq<u8>, Jv)>::empty());
            assert(full =~= done);
        }
        out.push(125);
        proof {
            assert(out@ =~= old(out)@ + render(Jv::Obj(full)));
        }
    }

    /// Decode the body of a SEQUENCE OF or SET OF as an array of its
    /// element type.
    #[verifier::loop_isolation(false)]
    fn write_sequence_of(&self, data: &[u8], elem: &[u8], out: &mut Vec<u8>, fuel: usize)
        ensures
            final(out)@ == old(out)@ + render(
                Jv::Arr(jv_elems(self, data@, elem@, 0, fuel as nat)),
            ),
        decreases fuel, 0int, 1int,
    {
        out.push(91);
        let ghost full = jv_elems(self, data@, elem@, 0, fuel as nat);
        let ghost done = Seq::<Jv>::empty();
        let mut offset: usize = 0;
        let mut first = true;
        let n = data.len();
        let is_choice = if fuel == 0 {
            false
        } else {
            assoc_find(&self.choices, self.resolve_alias(elem)).is_some()
        };
        while offset < n
            invariant
                n == data@.len(),
                offset <= n,
                fuel >= 1 ==> is_choice == (assoc_get(self.choices@, spec_resolve(self, elem@))
                    is Some),
                full == done + jv_elems(self, data@, elem@, offset as int, fuel as nat),
                first <==> done.len() == 0,
                out@ == old(out)@ + seq![91u8] + render_items(done),
            decreases n - offset,
        {
            if fuel == 0 {
                break ;
            }
            let t = match parse_tlv(data, offset) {
                Some(t) => t,
                None => { break ; },
            };
            proof {
                lemma_parse_tlv_bounds(data@, offset as int);
            }
            if t.end <= offset {
                break ;
            }
            let ghost item = if assoc_get(self.choices@, spec_resolve(self, elem@)) is Some {
                jv_type(self, raw_of(data@, t@), elem@, (fuel - 1) as nat)
            } else if t@.constructed {
                jv_type(self, value_of(data@, t@), elem@, (fuel - 1) as nat)
            } else {
                Jv::Hex(value_of(data@, t@))
            };
            proof {
                assert(jv_elems(self, data@, elem@, offset as int, fuel as nat) == seq![item]
                    + jv_elems(self, data@, elem@, t.end as int, fuel as nat));
            }
            if !first {
                out.push(44);
            }
            if is_choice {
                let raw_slice = slice_subrange(data, t.start, t.end);
                self.write_type(raw_slice, elem, out, fuel - 1);
            } else if t.constructed {
                let value_slice = slice_subrange(data, t.value_start, t.value_end);
                self.write_type(value_slice, elem, out, fuel - 1);
            } else {
                let value_slice = slice_subrange(data, t.value_start, t.value_end);
                write_hex_json(out, value_slice);
            }
            proof {
                lemma_render_items_push(done, item);
                done = done.push(item);
                assert(out@ =~= old(out)@ + seq![91u8] + render_items(done));
                assert(full == done + jv_elems(self, data@, elem@, t.end as int, fuel as nat));
            }
            first = false;
            offset = t.end;
        }
        proof {
            assert(jv_elems(self, data@, elem@, offset as int, fuel as nat) =~= Seq::<Jv>::empty());
            assert(full =~= done);
        }
        out.push(93);
        proof {
            assert(out@ =~= old(out)@ + render(Jv::Arr(full)));
        }
    }

    /// Emit one matched alternative of an untagged CHOICE: its key, then
    /// its body from the candidate's contents or raw bytes.
    fn write_synth_alt(
        &self,
        base: &[u8],
        cand: &Tlv,
        alt: &ChoiceAlt,
        out: &mut Vec<u8>,
        fuel: usize,
    )
        requires
            fuel >= 1,
            spec_parse_tlv(base@, cand@.start) == Some(cand@),
        ensures
            final(out)@ == old(out)@ + render_pair(
                (alt.name@, jv_synth_emit(self, *alt, base@, cand@, fuel as nat)),
            ),
        decreases fuel, 0int, 0int,
    {
        proof {
            lemma_parse_tlv_bounds(base@, cand@.start);
        }
        write_json_key(out, alt.name.as_slice());
        out.push(58);
        let f_rt = self.resolve_alias(alt.alt_type.as_slice());
        if assoc_find(&self.type_outer_tag, f_rt).is_some() {
            let value_slice = slice_subrange(base, cand.value_start, cand.value_end);
            self.write_type(value_slice, alt.alt_type.as_slice(), out, fuel - 1);
        } else if assoc_find(&self.choices, f_rt).is_some() {
            let raw_slice = slice_subrange(base, cand.start, cand.end);
            self.write_type(raw_slice, alt.alt_type.as_slice(), out, fuel - 1);
        } else {
            let value_slice = slice_subrange(base, cand.value_start, cand.value_end);
            self.write_type(value_slice, alt.alt_type.as_slice(), out, fuel - 1);
        }
    }

    /// Decode `data` as a CHOICE with alternative table `alts`.
    #[verifier::loop_isolation(false)]
    #[verifier::rlimit(80)]
    fn write_choice(
        &self,
        data: &[u8],
        alts: &Vec<(TagKey, ChoiceAlt)>,
        out: &mut Vec<u8>,
        fuel: usize,
    )
        ensures
            final(out)@ == old(out)@ + render(jv_choice(self, data@, alts@, fuel as nat)),
        decreases fuel, 0int, 1int,
    {
        if fuel == 0 {
            out.extend_from_slice("null".as_bytes());
            return ;
        }
        let outer = match parse_tlv(data, 0) {
            Some(t) => t,
            None => {
                out.extend_from_slice("null".as_bytes());
                return ;
            },
        };
        proof {
            lemma_parse_tlv_bounds(data@, 0);
        }
        let inner = slice_subrange(data, outer.value_start, outer.value_end);
        let c1: Option<Tlv> = if outer.constructed {
            parse_tlv(inner, 0)
        } else {
            None
        };
        let c2: Option<Tlv> = if outer.tag_class == 0 && !outer.constructed && outer.tag_num == 4
            && inner.len() > 0 && inner[0] != 0 {
            parse_tlv(inner, 0)
        } else {
            None
        };
        let ghost c1g: Option<TlvG> = match c1 {
            Some(t) => Some(t@),
            None => None,
        };
        let ghost c2g: Option<TlvG> = match c2 {
            Some(t) => Some(t@),
            None => None,
        };
        out.push(123);
        if let Some(alt) = tag_assoc_find(alts, TagKey { class: outer.tag_class, num: outer.tag_num }) {
            write_json_key(out, alt.name.as_slice());
            out.push(58);
            let value_slice = slice_subrange(data, outer.value_start, outer.value_end);
            self.write_type(value_slice, alt.alt_type.as_slice(), out, fuel - 1);
            out.push(125);
            proof {
                let p = (
                    alt.name@,
                    jv_type(self, value_of(data@, outer@), alt.alt_type@, (fuel - 1) as nat),
                );
                assert(jv_choice(self, data@, alts@, fuel as nat) == Jv::Obj(seq![p]));
                assert(render_pairs(seq![p]) == render_pair(p));
                assert(out@ =~= old(out)@ + render(jv_choice(self, data@, alts@, fuel as nat)));
            }
            return ;
        }
        if let Some(c) = c1 {
            proof {
                lemma_parse_tlv_bounds(inner@, 0);
            }
            if let Some(alt) = tag_assoc_find(alts, TagKey { class: c.tag_class, num: c.tag_num }) {
                write_json_key(out, alt.name.as_slice());
                out.push(58);
                let value_slice = slice_subrange(inner, c.value_start, c.value_end);
                self.write_type(value_slice, alt.alt_type.as_slice(), out, fuel - 1);
                out.push(125);
                proof {
                    let p = (
                        alt.name@,
                        jv_type(self, value_of(inner@, c@), alt.alt_type@, (fuel - 1) as nat),
                    );
                    assert(jv_choice(self, data@, alts@, fuel as nat) == Jv::Obj(seq![p]));
                    assert(render_pairs(seq![p]) == render_pair(p));
                    assert(out@ =~= old(out)@ + render(
                        jv_choice(self, data@, alts@, fuel as nat),
                    ));
                }
                return ;
            }
        }
        if let Some(c) = c2 {
            proof {
                lemma_parse_tlv_bounds(inner@, 0);
            }
            if let Some(alt) = tag_assoc_find(alts, TagKey { class: c.tag_class, num: c.tag_num }) {
                write_json_key(out, alt.name.as_slice());
                out.push(58);
                let value_slice = slice_subrange(inner, c.value_start, c.value_end);
                self.write_type(value_slice, alt.alt_type.as_slice(), out, fuel - 1);
                out.push(125);
                proof {
                    let p = (
                        alt.name@,
                        jv_type(self, value_of(inner@, c@), alt.alt_type@, (fuel - 1) as nat),
                    );
                    assert(jv_choice(self, data@, alts@, fuel as nat) == Jv::Obj(seq![p]));
                    assert(render_pairs(seq![p]) == render_pair(p));
                    assert(out@ =~= old(out)@ + render(
                        jv_choice(self, data@, alts@, fuel as nat),
                    ));
                }
                return ;
            }
        }
        let n = alts.len();
        let mut j: usize = 0;
        proof {
            assert(alts@.skip(0) =~= alts@);
        }
        while j < n
            invariant
                j <= n,
                n == alts@.len(),
                out@ == old(out)@ + seq![123u8],
                jv_choice_synth(self, alts@, data@, outer@, inner@, c1g, c2g, fuel as nat)
                    == jv_choice_synth(
                    self,
                    alts@.skip(j as int),
                    data@,
                    outer@,
                    inner@,
                    c1g,
                    c2g,
                    fuel as nat,
                ),
            decreases n - j,
        {
            proof {
                assert(alts@.skip(j as int)[0] == alts@[j as int]);
                assert(alts@.skip(j as int).drop_first() =~= alts@.skip(j + 1));
            }
            let pair = &alts[j];
            if pair.0.class == 3 && pair.0.num >= SYNTH_CHOICE_BASE {
                let alt = &pair.1;
                if self.choice_alt_matches_tlv(
                    alt.alt_type.as_slice(),
                    outer.tag_class,
                    outer.tag_num,
                    outer.constructed,
                ) {
                    self.write_synth_alt(data, &outer, alt, out, fuel);
                    out.push(125);
                    proof {
                        let p = (alt.name@, jv_synth_emit(self, *alt, data@, outer@, fuel as nat));
                        assert(jv_choice_synth(
                            self,
                            alts@.skip(j as int),
                            data@,
                            outer@,
                            inner@,
                            c1g,
                            c2g,
                            fuel as nat,
                        ) == Jv::Obj(seq![p]));
                        assert(render_pairs(seq![p]) == render_pair(p));
                        assert(out@ =~= old(out)@ + render(
                            jv_choice(self, data@, alts@, fuel as nat),
                        ));
                    }
                    return ;
                }
                if let Some(c) = c1 {
                    if self.choice_alt_matches_tlv(
                        alt.alt_type.as_slice(),
                        c.tag_class,
                        c.tag_num,
                        c.constructed,
                    ) {
                        self.write_synth_alt(inner, &c, alt, out, fuel);
                        out.push(125);
                        proof {
                            let p = (alt.name@, jv_synth_emit(self, *alt, inner@, c@, fuel as nat));
                            assert(jv_choice_synth(
                                self,
                                alts@.skip(j as int),
                                data@,
                                outer@,
                                inner@,
                                c1g,
                                c2g,
                                fuel as nat,
                            ) == Jv::Obj(seq![p]));
                            assert(render_pairs(seq![p]) == render_pair(p));
                            assert(out@ =~= old(out)@ + render(
                                jv_choice(self, data@, alts@, fuel as nat),
                            ));
                        }
                        return ;
                    }
                }
                if let Some(c) = c2 {
                    if self.choice_alt_matches_tlv(
                        alt.alt_type.as_slice(),
                        c.tag_class,
                        c.tag_num,
                        c.constructed,
                    ) {
                        self.write_synth_alt(inner, &c, alt, out, fuel);
                        out.push(125);
                        proof {
                            let p = (alt.name@, jv_synth_emit(self, *alt, inner@, c@, fuel as nat));
                            assert(jv_choice_synth(
                                self,
                                alts@.skip(j as int),
                                data@,
                                outer@,
                                inner@,
                                c1g,
                                c2g,
                                fuel as nat,
                            ) == Jv::Obj(seq![p]));
                            assert(render_pairs(seq![p]) == render_pair(p));
                            assert(out@ =~= old(out)@ + render(
                                jv_choice(self, data@, alts@, fuel as nat),
                            ));
                        }
                        return ;
                    }
                }
            }
            j = j + 1;
        }
        proof {
            assert(alts@.skip(n as int) =~= Seq::<(TagKey, ChoiceAlt)>::empty());
        }
        write_json_key(out, "unknown_alternative".as_bytes());
        out.push(58);
        let raw_slice = slice_subrange(data, outer.start, outer.end);
        write_hex_json(out, raw_slice);
        out.push(125);
        proof {
            let p = ("unknown_alternative".spec_bytes(), Jv::Hex(raw_of(data@, outer@)));
            assert(jv_choice_synth(
                self,
                alts@.skip(n as int),
                data@,
                outer@,
                inner@,
                c1g,
                c2g,
                fuel as nat,
            ) == Jv::Obj(seq![p]));
            assert(render_pairs(seq![p]) == render_pair(p));
            assert(out@ =~= old(out)@ + render(jv_choice(self, data@, alts@, fuel as nat)));
        }
    }
}


/// Why decoding could not start.
#[derive(Clone, Copy, PartialEq, Eq, Structural, Debug)]
pub enum DecodeError {
    /// The requested root type does not appear in the compiled schema.
    UnknownRootType,
}

/// Whether a TLV opens a record of the root type: by the root's declared
/// outer tag if one was written; for a CHOICE root, by any alternative, a
/// tagged one by key and an untagged one by structural probe; for SEQUENCE
/// and SET shapes by the universal constructed tags; any other root by its
/// derived universal tag, so an unknown root matches nothing.
pub open spec fn spec_tlv_matches_root(s: &Asn1Schema, t: TlvG, root: Seq<u8>) -> bool {
    let rt = spec_resolve(s, root);
    match assoc_get(s.type_outer_tag@, rt) {
        Some(tk) => t.tag_class == tk.class && t.tag_num == tk.num,
        None => match assoc_get(s.choices@, rt) {
            Some(alts) => tag_assoc_get(alts@, key_of(t)) is Some || exists|j: int|
                0 <= j < alts@.len() && (#[trigger] alts@[j]).0.class == 3 && alts@[j].0.num
                    >= SYNTH_CHOICE_BASE && spec_choice_alt_matches(
                    s,
                    alts@[j].1.alt_type@,
                    t.tag_class,
                    t.tag_num,
                    t.constructed,
                ),
            None => if assoc_get(s.sequences@, rt) is Some || assoc_get(s.seq_of_types@, rt)
                is Some {
                t.tag_class == 0 && t.constructed && t.tag_num == 16
            } else if assoc_get(s.sets@, rt) is Some || assoc_get(s.set_of_types@, rt) is Some {
                t.tag_class == 0 && t.constructed && t.tag_num == 17
            } else {
                match spec_universal_tag_for_type(s, rt) {
                    Some(tk) => t.tag_class == tk.class && t.tag_num == tk.num,
                    None => false,
                }
            },
        },
    }
}

/// The first root-typed TLV at or after `start`, scanning one byte at a
/// time.
pub open spec fn spec_find_next_root(
    s: &Asn1Schema,
    data: Seq<u8>,
    start: int,
    root: Seq<u8>,
) -> Option<TlvG>
    decreases data.len() - start,
{
    if start < 0 || start >= data.len() {
        None
    } else {
        match spec_parse_tlv(data, start) {
            Some(t) => if t.end > start && spec_tlv_matches_root(s, t, root) {
                Some(t)
            } else {
                spec_find_next_root(s, data, start + 1, root)
            },
            None => spec_find_next_root(s, data, start + 1, root),
        }
    }
}

/// A found root TLV was parsed within the buffer and past the scan start.
pub proof fn lemma_find_next_root_bounds(s: &Asn1Schema, data: Seq<u8>, start: int, root: Seq<u8>)
    ensures
        spec_find_next_root(s, data, start, root) matches Some(t) ==> {
            &&& start <= t.start
            &&& start < t.end <= data.len()
            &&& t.start + 2 <= t.end
            &&& spec_parse_tlv(data, t.start) == Some(t)
        },
    decreases data.len() - start,
{
    if 0 <= start && start < data.len() {
        lemma_parse_tlv_bounds(data, start);
        match spec_parse_tlv(data, start) {
            Some(t) => {
                if !(t.end > start && spec_tlv_matches_root(s, t, root)) {
                    lemma_find_next_root_bounds(s, data, start + 1, root);
                }
            },
            None => {
                lemma_find_next_root_bounds(s, data, start + 1, root);
            },
        }
    }
}

/// The JSON value of one root record: its raw bytes are handed to a CHOICE
/// root, so the resolver sees the outer tag; any other root decodes its
/// contents; a root with a declared outer tag decodes its contents as well.
pub open spec fn jv_root(s: &Asn1Schema, data: Seq<u8>, t: TlvG, root: Seq<u8>, fuel: nat) -> Jv {
    let rt = spec_resolve(s, root);
    if assoc_get(s.type_outer_tag@, rt) is Some {
        jv_type(s, value_of(data, t), root, fuel)
    } else if assoc_get(s.choices@, rt) is Some {
        jv_type(s, raw_of(data, t), root, fuel)
    } else {
        jv_type(s, value_of(data, t), root, fuel)
    }
}

/// The stream decoded from `off` on: one rendered record and a newline per
/// root-typed TLV found, with the record count; `None` when a record was
/// found but the root type is unknown to the schema.
pub open spec fn spec_stream_from(
    s: &Asn1Schema,
    data: Seq<u8>,
    root: Seq<u8>,
    off: int,
) -> Option<(Seq<u8>, nat)>
    decreases data.len() - off,
    via spec_stream_from_dec
{
    match spec_find_next_root(s, data, off, root) {
        None => Some((Seq::empty(), 0nat)),
        Some(t) => if !spec_knows_type(s, spec_resolve(s, root)) {
            None
        } else {
            match spec_stream_from(s, data, root, t.end) {
                None => None,
                Some(rest) => Some(
                    (
                        render(jv_root(s, data, t, root, DECODE_FUEL as nat)) + seq![10u8] + rest.0,
                        rest.1 + 1,
                    ),
                ),
            }
        },
    }
}

#[via_fn]
proof fn spec_stream_from_dec(s: &Asn1Schema, data: Seq<u8>, root: Seq<u8>, off: int) {
    lemma_find_next_root_bounds(s, data, off, root);
}

/// The whole decode of one input: `None` when the root type is unknown.
pub open spec fn spec_decode_stream(
    s: &Asn1Schema,
    data: Seq<u8>,
    root: Seq<u8>,
) -> Option<(Seq<u8>, nat)> {
    if !spec_knows_type(s, root) {
        None
    } else {
        spec_stream_from(s, data, root, 0)
    }
}

/// Dispatch determinism: two decodings of the same bytes under the same
/// compiled schema are byte-identical.
pub proof fn lemma_dispatch_deterministic(
    s: &Asn1Schema,
    data: Seq<u8>,
    root: Seq<u8>,
    out1: Seq<u8>,
    out2: Seq<u8>,
)
    requires
        spec_decode_stream(s, data, root) matches Some(p) && p.0 == out1,
        spec_decode_stream(s, data, root) matches Some(p) && p.0 == out2,
    ensures
        out1 == out2,
{
}

/// JSON well-formedness: whatever the decode of an input emits is the
/// rendering of a sequence of JSON values, one per record, each closed by a
/// newline.
pub proof fn lemma_stream_well_formed(s: &Asn1Schema, data: Seq<u8>, root: Seq<u8>, off: int)
    ensures
        spec_stream_from(s, data, root, off) matches Some(p) ==> exists|vs: Seq<Jv>|
            p.0 == render_lines(vs) && p.1 == vs.len(),
    decreases data.len() - off,
{
    lemma_find_next_root_bounds(s, data, off, root);
    match spec_find_next_root(s, data, off, root) {
        None => {
            let vs = Seq::<Jv>::empty();
            assert(render_lines(vs) == Seq::<u8>::empty());
            let p = spec_stream_from(s, data, root, off)->Some_0;
            assert(p.0 == render_lines(vs) && p.1 == vs.len());
        },
        Some(t) => {
            if spec_knows_type(s, spec_resolve(s, root)) {
                lemma_stream_well_formed(s, data, root, t.end);
                match spec_stream_from(s, data, root, t.end) {
                    Some(rest) => {
                        let vs_rest = choose|vs: Seq<Jv>|
                            rest.0 == render_lines(vs) && rest.1 == vs.len();
                        let v0 = jv_root(s, data, t, root, DECODE_FUEL as nat);
                        let vs = seq![v0] + vs_rest;
                        assert(vs[0] == v0);
                        assert(vs.drop_first() =~= vs_rest);
                        assert(render_lines(vs) == render(v0) + seq![10u8] + render_lines(vs_rest));
                        let p = spec_stream_from(s, data, root, off)->Some_0;
                        assert(p.0 == render_lines(vs) && p.1 == vs.len());
                    },
                    None => {},
                }
            }
        },
    }
}

/// Prefixing a decoded tail with already-emitted bytes and records.
pub open spec fn opt_prepend(
    prefix: Seq<u8>,
    cnt: nat,
    rest: Option<(Seq<u8>, nat)>,
) -> Option<(Seq<u8>, nat)> {
    match rest {
        None => None,
        Some(r) => Some((prefix + r.0, cnt + r.1)),
    }
}

impl Asn1Schema {
    /// Whether a parsed TLV opens a record of the root type.
    #[verifier::loop_isolation(false)]
    pub fn tlv_matches_root(&self, t: &Tlv, root_type: &[u8]) -> (r: bool)
        ensures
            r == spec_tlv_matches_root(self, t@, root_type@),
    {
        let rt = self.resolve_alias(root_type);
        if let Some(tk) = assoc_find(&self.type_outer_tag, rt) {
            return t.tag_class == tk.class && t.tag_num == tk.num;
        }
        if let Some(alts) = assoc_find(&self.choices, rt) {
            if tag_assoc_find(alts, TagKey { class: t.tag_class, num: t.tag_num }).is_some() {
                return true;
            }
            let n = alts.len();
            let mut j: usize = 0;
            while j < n
                invariant
                    j <= n,
                    n == alts@.len(),
                    forall|k: int|
                        0 <= k < j ==> !((#[trigger] alts@[k]).0.class == 3 && alts@[k].0.num
                            >= SYNTH_CHOICE_BASE && spec_choice_alt_matches(
                            self,
                            alts@[k].1.alt_type@,
                            t@.tag_class,
                            t@.tag_num,
                            t@.constructed,
                        )),
                decreases n - j,
            {
                let pair = &alts[j];
                if pair.0.class == 3 && pair.0.num >= SYNTH_CHOICE_BASE {
                    if self.choice_alt_matches_tlv(
                        pair.1.alt_type.as_slice(),
                        t.tag_class,
                        t.tag_num,
                        t.constructed,
                    ) {
                        proof {
                            assert((#[trigger] alts@[j as int]).0.class == 3 && alts@[
                                j as int
                            ].0.num >= SYNTH_CHOICE_BASE && spec_choice_alt_matches(
                                self,
                                alts@[j as int].1.alt_type@,
                                t@.tag_class,
                                t@.tag_num,
                                t@.constructed,
                            ));
                            assert(exists|k: int|
                                0 <= k < alts@.len() && (#[trigger] alts@[k]).0.class == 3
                                    && alts@[k].0.num >= SYNTH_CHOICE_BASE
                                    && spec_choice_alt_matches(
                                    self,
                                    alts@[k].1.alt_type@,
                                    t@.tag_class,
                                    t@.tag_num,
                                    t@.constructed,
                                ));
                        }
                        return true;
                    }
                }
                j = j + 1;
            }
            return false;
        }
        if assoc_find(&self.sequences, rt).is_some() || assoc_find(
            &self.seq_of_types,
            rt,
        ).is_some() {
            return t.tag_class == 0 && t.constructed && t.tag_num == 16;
        }
        if assoc_find(&self.sets, rt).is_some() || assoc_find(&self.set_of_types, rt).is_some() {
            return t.tag_class == 0 && t.constructed && t.tag_num == 17;
        }
        match self.universal_tag_for_type(rt) {
            Some(tk) => t.tag_class == tk.class && t.tag_num == tk.num,
            None => false,
        }
    }

    /// Scan forward from `start` for the next TLV that matches the root
    /// type; a found record always ends strictly past `start`, so the scan
    /// of a stream advances.
    #[verifier::loop_isolation(false)]
    pub fn find_next_root_tlv(&self, data: &[u8], start: usize, root_type: &[u8]) -> (r: Option<
        Tlv,
    >)
        ensures
            match spec_find_next_root(self, data@, start as int, root_type@) {
                Some(g) => r matches Some(t) && t@ == g,
                None => r is None,
            },
            r matches Some(t) ==> start < t.end <= data@.len(),
    {
        proof {
            lemma_find_next_root_bounds(self, data@, start as int, root_type@);
        }
        let n = data.len();
        let mut pos = start;
        while pos < n
            invariant
                start <= pos,
                n == data@.len(),
                spec_find_next_root(self, data@, start as int, root_type@) == spec_find_next_root(
                    self,
                    data@,
                    pos as int,
                    root_type@,
                ),
            decreases n - pos,
        {
            if let Some(t) = parse_tlv(data, pos) {
                if t.end > pos && self.tlv_matches_root(&t, root_type) {
                    return Some(t);
                }
            }
            pos = pos + 1;
        }
        None
    }

    /// Decode one root record: hand a CHOICE root the record's raw bytes
    /// and any other root its contents. Errs exactly when the schema does
    /// not know the root type, leaving the output untouched.
    pub fn write_root_tlv(
        &self,
        data: &[u8],
        t: &Tlv,
        root_type: &[u8],
        out: &mut Vec<u8>,
        fuel: usize,
    ) -> (r: Result<(), DecodeError>)
        requires
            spec_parse_tlv(data@, t@.start) == Some(t@),
        ensures
            r is Ok <==> spec_knows_type(self, spec_resolve(self, root_type@)),
            r is Ok ==> final(out)@ == old(out)@ + render(
                jv_root(self, data@, t@, root_type@, fuel as nat),
            ),
            r is Err ==> final(out)@ == old(out)@ && r == Result::<(), DecodeError>::Err(
                DecodeError::UnknownRootType,
            ),
    {
        proof {
            lemma_parse_tlv_bounds(data@, t@.start);
        }
        let rt = self.resolve_alias(root_type);
        if !self.knows_type(rt) {
            return Err(DecodeError::UnknownRootType);
        }
        if assoc_find(&self.type_outer_tag, rt).is_some() {
            let value_slice = slice_subrange(data, t.value_start, t.value_end);
            self.write_type(value_slice, root_type, out, fuel);
            return Ok(());
        }
        if assoc_find(&self.choices, rt).is_some() {
            let raw_slice = slice_subrange(data, t.start, t.end);
            self.write_type(raw_slice, root_type, out, fuel);
        } else {
            let value_slice = slice_subrange(data, t.value_start, t.value_end);
            self.write_type(value_slice, root_type, out, fuel);
        }
        Ok(())
    }

    /// Decode a whole input: find successive root-typed TLVs and emit one
    /// JSON line per record, returning the output bytes and the record
    /// count. Errs exactly when the root type is unknown to the schema.
    #[verifier::loop_isolation(false)]
    #[verifier::rlimit(50)]
    pub fn decode_stream(&self, data: &[u8], root_type: &[u8]) -> (r: Result<
        (Vec<u8>, usize),
        DecodeError,
    >)
        ensures
            match spec_decode_stream(self, data@, root_type@) {
                Some(p) => r matches Ok(o) && o.0@ == p.0 && o.1 == p.1,
                None => r == Result::<(Vec<u8>, usize), DecodeError>::Err(
                    DecodeError::UnknownRootType,
                ),
            },
    {
        if !self.knows_type(root_type) {
            return Err(DecodeError::UnknownRootType);
        }
        let mut out: Vec<u8> = Vec::new();
        let mut count: usize = 0;
        let mut offset: usize = 0;
        let n = data.len();
        proof {
            assert(out@ + spec_stream_from(self, data@, root_type@, 0)->Some_0.0
                =~= spec_stream_from(self, data@, root_type@, 0)->Some_0.0);
        }
        while offset < n
            invariant
                n == data@.len(),
                count <= offset,
                spec_stream_from(self, data@, root_type@, 0) == opt_prepend(
                    out@,
                    count as nat,
                    spec_stream_from(self, data@, root_type@, offset as int),
                ),
            decreases n - offset,
        {
            proof {
                lemma_find_next_root_bounds(self, data@, offset as int, root_type@);
            }
            let t = match self.find_next_root_tlv(data, offset, root_type) {
                Some(t) => t,
                None => { break ; },
            };
            let ghost rest_after = spec_stream_from(self, data@, root_type@, t@.end);
            let ghost out_before = out@;
            match self.write_root_tlv(data, &t, root_type, &mut out, DECODE_FUEL) {
                Ok(_) => {},
                Err(e) => {
                    return Err(e);
                },
            }
            out.push(10);
            proof {
                let line = render(jv_root(self, data@, t@, root_type@, DECODE_FUEL as nat))
                    + seq![10u8];
                assert(out@ =~= out_before + line);
                assert(spec_stream_from(self, data@, root_type@, offset as int) == opt_prepend(
                    line,
                    1nat,
                    rest_after,
                ));
                match rest_after {
                    Some(rp) => {
                        assert((out_before + line) + rp.0 =~= out_before + (line + rp.0));
                    },
                    None => {},
                }
            }
            count = count + 1;
            offset = t.end;
        }
        proof {
            assert(spec_stream_from(self, data@, root_type@, offset as int) == Some(
                (Seq::<u8>::empty(), 0nat),
            ));
            assert(out@ + Seq::<u8>::empty() =~= out@);
        }
        Ok((out, count))
    }
}


} // verus!
