//! The compiled schema: name-indexed dispatch tables, alias resolution and
//! outer-tag derivation for types of a parsed ASN.1 module.

use vstd::prelude::*;
use crate::util::bytes_eq;
use crate::util::to_ascii_upper;
use crate::util::upper_seq;
use vstd::string::StringSliceAdditionalSpecFns;

verus! {

/// An encoded tag: class (UNIVERSAL 0, APPLICATION 1, CONTEXT 2, PRIVATE 3)
/// and number. Two TLVs dispatch identically exactly when their tag keys are
/// equal.
#[derive(Clone, Copy, PartialEq, Eq, Structural, Debug)]
pub struct TagKey {
    pub class: u8,
    pub num: u32,
}

/// The lowest tag number reserved for alternatives of a CHOICE written
/// without explicit tags; no real schema tag reaches this range.
pub const SYNTH_CHOICE_BASE: u32 = 0xFFFF_FF00;

/// Whether a tag number lies in the reserved range that marks alternatives
/// of an untagged CHOICE.
pub fn is_synth_choice_tag(t: u32) -> (r: bool)
    ensures
        r == (t >= SYNTH_CHOICE_BASE),
{
    t >= SYNTH_CHOICE_BASE
}

/// One field of a SEQUENCE or SET body.
#[derive(Debug)]
pub struct FieldSpec {
    pub name: Vec<u8>,
    pub field_type: Vec<u8>,
    pub optional: bool,
    pub is_sequence_of: bool,
    pub is_set_of: bool,
}

/// One alternative of a CHOICE body.
#[derive(Debug)]
pub struct ChoiceAlt {
    pub name: Vec<u8>,
    pub alt_type: Vec<u8>,
}

/// The compiled schema: association tables keyed by type name, each key
/// held once. Inner tables are keyed by tag key, each key held once, in
/// insertion order, so the alternatives of an untagged CHOICE stand in
/// ascending synthetic-ordinal order.
#[derive(Debug)]
pub struct Asn1Schema {
    pub choices: Vec<(Vec<u8>, Vec<(TagKey, ChoiceAlt)>)>,
    pub sequences: Vec<(Vec<u8>, Vec<(TagKey, FieldSpec)>)>,
    pub sets: Vec<(Vec<u8>, Vec<(TagKey, FieldSpec)>)>,
    pub seq_of_types: Vec<(Vec<u8>, Vec<u8>)>,
    pub set_of_types: Vec<(Vec<u8>, Vec<u8>)>,
    pub primitives: Vec<(Vec<u8>, Vec<u8>)>,
    pub aliases: Vec<(Vec<u8>, Vec<u8>)>,
    pub type_outer_tag: Vec<(Vec<u8>, TagKey)>,
}

/// First value bound to byte-string key `k`, scanning left to right.
pub open spec fn assoc_get<V>(s: Seq<(Vec<u8>, V)>, k: Seq<u8>) -> Option<V>
    decreases s.len(),
{
    if s.len() == 0 {
        None
    } else if s[0].0@ == k {
        Some(s[0].1)
    } else {
        assoc_get(s.drop_first(), k)
    }
}

/// The table with `k` bound to `v`: the first binding of `k` is replaced in
/// place, or the pair is appended when `k` is absent.
pub open spec fn assoc_put<V>(s: Seq<(Vec<u8>, V)>, k: Vec<u8>, v: V) -> Seq<(Vec<u8>, V)>
    decreases s.len(),
{
    if s.len() == 0 {
        seq![(k, v)]
    } else if s[0].0@ == k@ {
        seq![(k, v)] + s.drop_first()
    } else {
        seq![s[0]] + assoc_put(s.drop_first(), k, v)
    }
}

/// Find the value bound to `key`.
pub fn assoc_find<'a, V>(table: &'a Vec<(Vec<u8>, V)>, key: &[u8]) -> (r: Option<&'a V>)
    ensures
        match assoc_get(table@, key@) {
            Some(v) => r matches Some(rv) && *rv == v,
            None => r is None,
        },
{
    let n = table.len();
    let mut i: usize = 0;
    proof {
        assert(table@.skip(0) =~= table@);
    }
    while i < n
        invariant
            n == table@.len(),
            i <= n,
            assoc_get(table@, key@) == assoc_get(table@.skip(i as int), key@),
        decreases n - i,
    {
        let pair = &table[i];
        proof {
            assert(table@.skip(i as int)[0] == table@[i as int]);
            assert(table@.skip(i as int).drop_first() =~= table@.skip(i + 1));
        }
        if bytes_eq(pair.0.as_slice(), key) {
            return Some(&pair.1);
        }
        i = i + 1;
    }
    proof {
        assert(table@.skip(n as int) =~= Seq::<(Vec<u8>, V)>::empty());
    }
    None
}

/// Bind `key` to `value`, replacing the old binding in place or appending.
#[verifier::loop_isolation(false)]
pub fn assoc_insert<V>(table: &mut Vec<(Vec<u8>, V)>, key: Vec<u8>, value: V)
    ensures
        final(table)@ == assoc_put(old(table)@, key, value),
{
    let ghost orig = table@;
    let n = table.len();
    let mut i: usize = 0;
    proof {
        assert(orig.skip(0) =~= orig);
        assert(orig.take(0) + assoc_put(orig, key, value) =~= assoc_put(orig, key, value));
    }
    while i < n
        invariant
            n == orig.len(),
            i <= n,
            table@ == orig,
            assoc_put(orig, key, value) == orig.take(i as int) + assoc_put(
                orig.skip(i as int),
                key,
                value,
            ),
        decreases n - i,
    {
        proof {
            assert(orig.skip(i as int)[0] == orig[i as int]);
            assert(orig.skip(i as int).drop_first() =~= orig.skip(i + 1));
        }
        if bytes_eq(table[i].0.as_slice(), key.as_slice()) {
            proof {
                assert(orig.skip(i as int)[0].0@ == key@);
                assert(assoc_put(orig.skip(i as int), key, value) =~= seq![(key, value)]
                    + orig.skip(i + 1));
            }
            table.remove(i);
            table.insert(i, (key, value));
            proof {
                assert(table@ =~= orig.take(i as int) + (seq![(key, value)] + orig.skip(i + 1)));
            }
            return ;
        }
        proof {
            assert(orig.take(i + 1) =~= orig.take(i as int) + seq![orig[i as int]]);
            assert(orig.take(i as int) + (seq![orig[i as int]] + assoc_put(
                orig.skip(i + 1),
                key,
                value,
            )) =~= orig.take(i + 1) + assoc_put(orig.skip(i + 1), key, value));
        }
        i = i + 1;
    }
    proof {
        assert(orig.skip(n as int) =~= Seq::<(Vec<u8>, V)>::empty());
    }
    table.push((key, value));
    proof {
        assert(table@ =~= orig.take(n as int) + assoc_put(orig.skip(n as int), key, value));
    }
}

/// First value bound to tag key `k`, scanning left to right.
pub open spec fn tag_assoc_get<V>(s: Seq<(TagKey, V)>, k: TagKey) -> Option<V>
    decreases s.len(),
{
    if s.len() == 0 {
        None
    } else if s[0].0 == k {
        Some(s[0].1)
    } else {
        tag_assoc_get(s.drop_first(), k)
    }
}

/// The table with tag key `k` bound to `v`, replacing in place or appending.
pub open spec fn tag_assoc_put<V>(s: Seq<(TagKey, V)>, k: TagKey, v: V) -> Seq<(TagKey, V)>
    decreases s.len(),
{
    if s.len() == 0 {
        seq![(k, v)]
    } else if s[0].0 == k {
        seq![(k, v)] + s.drop_first()
    } else {
        seq![s[0]] + tag_assoc_put(s.drop_first(), k, v)
    }
}

/// Find the value bound to tag key `key`.
pub fn tag_assoc_find<'a, V>(table: &'a Vec<(TagKey, V)>, key: TagKey) -> (r: Option<&'a V>)
    ensures
        match tag_assoc_get(table@, key) {
            Some(v) => r matches Some(rv) && *rv == v,
            None => r is None,
        },
{
    let n = table.len();
    let mut i: usize = 0;
    proof {
        assert(table@.skip(0) =~= table@);
    }
    while i < n
        invariant
            n == table@.len(),
            i <= n,
            tag_assoc_get(table@, key) == tag_assoc_get(table@.skip(i as int), key),
        decreases n - i,
    {
        let pair = &table[i];
        proof {
            assert(table@.skip(i as int)[0] == table@[i as int]);
            assert(table@.skip(i as int).drop_first() =~= table@.skip(i + 1));
        }
        if pair.0 == key {
            return Some(&pair.1);
        }
        i = i + 1;
    }
    proof {
        assert(table@.skip(n as int) =~= Seq::<(TagKey, V)>::empty());
    }
    None
}

/// Bind tag key `key` to `value`, replacing in place or appending.
#[verifier::loop_isolation(false)]
pub fn tag_assoc_insert<V>(table: &mut Vec<(TagKey, V)>, key: TagKey, value: V)
    ensures
        final(table)@ == tag_assoc_put(old(table)@, key, value),
{
    let ghost orig = table@;
    let n = table.len();
    let mut i: usize = 0;
    proof {
        assert(orig.skip(0) =~= orig);
        assert(orig.take(0) + tag_assoc_put(orig, key, value) =~= tag_assoc_put(orig, key, value));
    }
    while i < n
        invariant
            n == orig.len(),
            i <= n,
            table@ == orig,
            tag_assoc_put(orig, key, value) == orig.take(i as int) + tag_assoc_put(
                orig.skip(i as int),
                key,
                value,
            ),
        decreases n - i,
    {
        proof {
            assert(orig.skip(i as int)[0] == orig[i as int]);
            assert(orig.skip(i as int).drop_first() =~= orig.skip(i + 1));
        }
        if table[i].0 == key {
            proof {
                assert(tag_assoc_put(orig.skip(i as int), key, value) =~= seq![(key, value)]
                    + orig.skip(i + 1));
            }
            table.remove(i);
            table.insert(i, (key, value));
            proof {
                assert(table@ =~= orig.take(i as int) + (seq![(key, value)] + orig.skip(i + 1)));
            }
            return ;
        }
        proof {
            assert(orig.take(i + 1) =~= orig.take(i as int) + seq![orig[i as int]]);
            assert(orig.take(i as int) + (seq![orig[i as int]] + tag_assoc_put(
                orig.skip(i + 1),
                key,
                value,
            )) =~= orig.take(i + 1) + tag_assoc_put(orig.skip(i + 1), key, value));
        }
        i = i + 1;
    }
    proof {
        assert(orig.skip(n as int) =~= Seq::<(TagKey, V)>::empty());
    }
    table.push((key, value));
    proof {
        assert(table@ =~= orig.take(n as int) + tag_assoc_put(orig.skip(n as int), key, value));
    }
}

/// The tag class for a class word read from a schema: APPLICATION,
/// UNIVERSAL and PRIVATE name their classes; anything else, and a bare
/// number without a word, means CONTEXT.
pub open spec fn spec_tag_class_from_word(w: Option<Seq<u8>>) -> u8 {
    match w {
        Some(s) => {
            let u = upper_seq(s);
            if u == "APPLICATION".spec_bytes() {
                1
            } else if u == "UNIVERSAL".spec_bytes() {
                0
            } else if u == "PRIVATE".spec_bytes() {
                3
            } else {
                2
            }
        },
        None => 2,
    }
}

/// Map an optional class word to its tag class.
pub fn tag_class_from_word(word: Option<&[u8]>) -> (r: u8)
    ensures
        r == spec_tag_class_from_word(match word {
            Some(w) => Some(w@),
            None => None,
        }),
{
    match word {
        Some(w) => {
            let u = to_ascii_upper(w);
            if bytes_eq(u.as_slice(), "APPLICATION".as_bytes()) {
                1
            } else if bytes_eq(u.as_slice(), "UNIVERSAL".as_bytes()) {
                0
            } else if bytes_eq(u.as_slice(), "PRIVATE".as_bytes()) {
                3
            } else {
                2
            }
        },
        None => 2,
    }
}

/// Alias resolution bounded by `n` steps: follow the alias table until a
/// name that is no alias, or the bound runs out.
pub open spec fn spec_resolve_n(aliases: Seq<(Vec<u8>, Vec<u8>)>, t: Seq<u8>, n: nat) -> Seq<u8>
    decreases n,
{
    if n == 0 {
        t
    } else {
        match assoc_get(aliases, t) {
            None => t,
            Some(next) => spec_resolve_n(aliases, next@, (n - 1) as nat),
        }
    }
}

/// The number of alias-following steps after which resolution stops even on
/// a cyclic alias table.
pub const ALIAS_RESOLVE_BOUND: usize = 32;

/// The name `t` resolves to under the schema's alias table.
pub open spec fn spec_resolve(s: &Asn1Schema, t: Seq<u8>) -> Seq<u8> {
    spec_resolve_n(s.aliases@, t, ALIAS_RESOLVE_BOUND as nat)
}

/// A name that is no alias resolves to itself, under any step bound.
pub proof fn lemma_resolve_fixpoint(aliases: Seq<(Vec<u8>, Vec<u8>)>, t: Seq<u8>, n: nat)
    requires
        assoc_get(aliases, t) is None,
    ensures
        spec_resolve_n(aliases, t, n) == t,
{
}

/// Alias idempotence: when resolution has reached a name that is no alias,
/// resolving that name again changes nothing.
pub proof fn lemma_alias_idempotence(s: &Asn1Schema, t: Seq<u8>)
    requires
        assoc_get(s.aliases@, spec_resolve(s, t)) is None,
    ensures
        spec_resolve(s, spec_resolve(s, t)) == spec_resolve(s, t),
{
    lemma_resolve_fixpoint(s.aliases@, spec_resolve(s, t), ALIAS_RESOLVE_BOUND as nat);
}

/// Whether `t` names a type the schema can decode: after alias resolution
/// it stands in one of the six tables.
pub open spec fn spec_knows_type(s: &Asn1Schema, t: Seq<u8>) -> bool {
    let rt = spec_resolve(s, t);
    ||| assoc_get(s.choices@, rt) is Some
    ||| assoc_get(s.sequences@, rt) is Some
    ||| assoc_get(s.sets@, rt) is Some
    ||| assoc_get(s.seq_of_types@, rt) is Some
    ||| assoc_get(s.set_of_types@, rt) is Some
    ||| assoc_get(s.primitives@, rt) is Some
}

/// The universal tag of a primitive kind word, `None` for any other word.
pub open spec fn spec_universal_kind_tag(kind: Seq<u8>) -> Option<TagKey> {
    if kind == "INTEGER".spec_bytes() {
        Some(TagKey { class: 0, num: 2 })
    } else if kind == "OCTET STRING".spec_bytes() {
        Some(TagKey { class: 0, num: 4 })
    } else if kind == "BIT STRING".spec_bytes() {
        Some(TagKey { class: 0, num: 3 })
    } else if kind == "BOOLEAN".spec_bytes() {
        Some(TagKey { class: 0, num: 1 })
    } else if kind == "NULL".spec_bytes() {
        Some(TagKey { class: 0, num: 5 })
    } else if kind == "ENUMERATED".spec_bytes() {
        Some(TagKey { class: 0, num: 10 })
    } else if kind == "IA5String".spec_bytes() {
        Some(TagKey { class: 0, num: 22 })
    } else if kind == "UTF8String".spec_bytes() {
        Some(TagKey { class: 0, num: 12 })
    } else if kind == "OBJECT IDENTIFIER".spec_bytes() {
        Some(TagKey { class: 0, num: 6 })
    } else if kind == "TBCD-STRING".spec_bytes() {
        Some(TagKey { class: 0, num: 4 })
    } else if kind == "GraphicString".spec_bytes() {
        Some(TagKey { class: 0, num: 25 })
    } else if kind == "VisibleString".spec_bytes() {
        Some(TagKey { class: 0, num: 26 })
    } else {
        None
    }
}

fn universal_kind_tag(kind: &[u8]) -> (r: Option<TagKey>)
    ensures
        r == spec_universal_kind_tag(kind@),
{
    if bytes_eq(kind, "INTEGER".as_bytes()) {
        Some(TagKey { class: 0, num: 2 })
    } else if bytes_eq(kind, "OCTET STRING".as_bytes()) {
        Some(TagKey { class: 0, num: 4 })
    } else if bytes_eq(kind, "BIT STRING".as_bytes()) {
        Some(TagKey { class: 0, num: 3 })
    } else if bytes_eq(kind, "BOOLEAN".as_bytes()) {
        Some(TagKey { class: 0, num: 1 })
    } else if bytes_eq(kind, "NULL".as_bytes()) {
        Some(TagKey { class: 0, num: 5 })
    } else if bytes_eq(kind, "ENUMERATED".as_bytes()) {
        Some(TagKey { class: 0, num: 10 })
    } else if bytes_eq(kind, "IA5String".as_bytes()) {
        Some(TagKey { class: 0, num: 22 })
    } else if bytes_eq(kind, "UTF8String".as_bytes()) {
        Some(TagKey { class: 0, num: 12 })
    } else if bytes_eq(kind, "OBJECT IDENTIFIER".as_bytes()) {
        Some(TagKey { class: 0, num: 6 })
    } else if bytes_eq(kind, "TBCD-STRING".as_bytes()) {
        Some(TagKey { class: 0, num: 4 })
    } else if bytes_eq(kind, "GraphicString".as_bytes()) {
        Some(TagKey { class: 0, num: 25 })
    } else if bytes_eq(kind, "VisibleString".as_bytes()) {
        Some(TagKey { class: 0, num: 26 })
    } else {
        None
    }
}

/// The natural outer tag of a resolved type: SEQUENCE and SEQUENCE OF take
/// the universal constructed tag 16, SET and SET OF tag 17, a CHOICE has no
/// outer tag, and anything else goes by its primitive kind (falling back to
/// the name itself when the name is no declared primitive).
pub open spec fn spec_universal_tag_for_type(s: &Asn1Schema, t: Seq<u8>) -> Option<TagKey> {
    let rt = spec_resolve(s, t);
    if assoc_get(s.sequences@, rt) is Some || assoc_get(s.seq_of_types@, rt) is Some {
        Some(TagKey { class: 0, num: 16 })
    } else if assoc_get(s.sets@, rt) is Some || assoc_get(s.set_of_types@, rt) is Some {
        Some(TagKey { class: 0, num: 17 })
    } else if assoc_get(s.choices@, rt) is Some {
        None
    } else {
        let kind = match assoc_get(s.primitives@, rt) {
            Some(k) => k@,
            None => rt,
        };
        spec_universal_kind_tag(kind)
    }
}

/// The dispatch tag of a type: a declared outer tag wins over the natural
/// universal tag.
pub open spec fn spec_tag_for_type(s: &Asn1Schema, t: Seq<u8>) -> Option<TagKey> {
    let rt = spec_resolve(s, t);
    match assoc_get(s.type_outer_tag@, rt) {
        Some(tk) => Some(tk),
        None => spec_universal_tag_for_type(s, rt),
    }
}

impl Asn1Schema {
    /// A schema with every table empty.
    pub fn new() -> (r: Asn1Schema)
        ensures
            r.choices@ =~= Seq::<(Vec<u8>, Vec<(TagKey, ChoiceAlt)>)>::empty(),
            r.sequences@ =~= Seq::<(Vec<u8>, Vec<(TagKey, FieldSpec)>)>::empty(),
            r.sets@ =~= Seq::<(Vec<u8>, Vec<(TagKey, FieldSpec)>)>::empty(),
            r.seq_of_types@ =~= Seq::<(Vec<u8>, Vec<u8>)>::empty(),
            r.set_of_types@ =~= Seq::<(Vec<u8>, Vec<u8>)>::empty(),
            r.primitives@ =~= Seq::<(Vec<u8>, Vec<u8>)>::empty(),
            r.aliases@ =~= Seq::<(Vec<u8>, Vec<u8>)>::empty(),
            r.type_outer_tag@ =~= Seq::<(Vec<u8>, TagKey)>::empty(),
    {
        Asn1Schema {
            choices: Vec::new(),
            sequences: Vec::new(),
            sets: Vec::new(),
            seq_of_types: Vec::new(),
            set_of_types: Vec::new(),
            primitives: Vec::new(),
            aliases: Vec::new(),
            type_outer_tag: Vec::new(),
        }
    }

    /// Follow the alias table from `t`, stopping at a name that is no alias
    /// or after the fixed step bound, so that even cyclic alias tables
    /// resolve.
    #[verifier::loop_isolation(false)]
    pub fn resolve_alias<'a>(&'a self, t: &'a [u8]) -> (r: &'a [u8])
        ensures
            r@ == spec_resolve(self, t@),
    {
        let mut cur: &[u8] = t;
        let mut k: usize = 0;
        while k < ALIAS_RESOLVE_BOUND
            invariant
                k <= ALIAS_RESOLVE_BOUND,
                spec_resolve(self, t@) == spec_resolve_n(
                    self.aliases@,
                    cur@,
                    (ALIAS_RESOLVE_BOUND - k) as nat,
                ),
            decreases ALIAS_RESOLVE_BOUND - k,
        {
            match assoc_find(&self.aliases, cur) {
                Some(next) => {
                    cur = next.as_slice();
                },
                None => {
                    proof {
                        lemma_resolve_fixpoint(
                            self.aliases@,
                            cur@,
                            (ALIAS_RESOLVE_BOUND - k) as nat,
                        );
                    }
                    return cur;
                },
            }
            k = k + 1;
        }
        cur
    }

    /// Whether `t` names a type this schema can decode.
    pub fn knows_type(&self, t: &[u8]) -> (r: bool)
        ensures
            r == spec_knows_type(self, t@),
    {
        let rt = self.resolve_alias(t);
        assoc_find(&self.choices, rt).is_some() || assoc_find(&self.sequences, rt).is_some()
            || assoc_find(&self.sets, rt).is_some() || assoc_find(&self.seq_of_types, rt).is_some()
            || assoc_find(&self.set_of_types, rt).is_some() || assoc_find(
            &self.primitives,
            rt,
        ).is_some()
    }

    /// The natural outer tag of a type.
    pub fn universal_tag_for_type(&self, t: &[u8]) -> (r: Option<TagKey>)
        ensures
            r == spec_universal_tag_for_type(self, t@),
    {
        let rt = self.resolve_alias(t);
        if assoc_find(&self.sequences, rt).is_some() || assoc_find(
            &self.seq_of_types,
            rt,
        ).is_some() {
            return Some(TagKey { class: 0, num: 16 });
        }
        if assoc_find(&self.sets, rt).is_some() || assoc_find(&self.set_of_types, rt).is_some() {
            return Some(TagKey { class: 0, num: 17 });
        }
        if assoc_find(&self.choices, rt).is_some() {
            return None;
        }
        match assoc_find(&self.primitives, rt) {
            Some(kind) => universal_kind_tag(kind.as_slice()),
            None => universal_kind_tag(rt),
        }
    }

    /// The dispatch tag of a type: its declared outer tag if one was
    /// written, else its natural universal tag.
    pub fn tag_for_type(&self, t: &[u8]) -> (r: Option<TagKey>)
        ensures
            r == spec_tag_for_type(self, t@),
    {
        let rt = self.resolve_alias(t);
        match assoc_find(&self.type_outer_tag, rt) {
            Some(tk) => Some(*tk),
            None => self.universal_tag_for_type(rt),
        }
    }
}


/// Each tag key stands at most once in a table.
pub open spec fn tag_keys_unique<V>(s: Seq<(TagKey, V)>) -> bool {
    forall|i: int, j: int|
        0 <= i < j < s.len() ==> (#[trigger] s[i]).0 != (#[trigger] s[j]).0
}

/// Binding a tag key keeps the keys unique, and introduces no key but the
/// bound one.
pub proof fn lemma_tag_put_unique<V>(s: Seq<(TagKey, V)>, k: TagKey, v: V)
    requires
        tag_keys_unique(s),
    ensures
        tag_keys_unique(tag_assoc_put(s, k, v)),
        forall|j: int|
            0 <= j < tag_assoc_put(s, k, v).len() ==> ((#[trigger] tag_assoc_put(s, k, v)[j]).0
                == k || exists|i: int| 0 <= i < s.len() && (#[trigger] s[i]).0 == tag_assoc_put(
                s,
                k,
                v,
            )[j].0),
    decreases s.len(),
{
    let t = tag_assoc_put(s, k, v);
    if s.len() == 0 {
        assert(t =~= seq![(k, v)]);
    } else if s[0].0 == k {
        assert(t =~= seq![(k, v)] + s.drop_first());
        assert(forall|j: int|
            0 <= j < s.drop_first().len() ==> (#[trigger] s.drop_first()[j]) == s[j + 1]);
        assert forall|j: int| 0 <= j < t.len() implies ((#[trigger] t[j]).0 == k || exists|i: int|
            0 <= i < s.len() && (#[trigger] s[i]).0 == t[j].0) by {
            if j > 0 {
                assert(s[j as int].0 == t[j].0);
            }
        }
    } else {
        assert(tag_keys_unique(s.drop_first())) by {
            assert(forall|j: int|
                0 <= j < s.drop_first().len() ==> (#[trigger] s.drop_first()[j]) == s[j + 1]);
        }
        lemma_tag_put_unique(s.drop_first(), k, v);
        let r = tag_assoc_put(s.drop_first(), k, v);
        assert(t =~= seq![s[0]] + r);
        assert forall|j: int| 0 <= j < t.len() implies ((#[trigger] t[j]).0 == k || exists|i: int|
            0 <= i < s.len() && (#[trigger] s[i]).0 == t[j].0) by {
            if j == 0 {
                assert(s[0].0 == t[0].0);
            } else {
                assert(t[j] == r[j - 1]);
                if r[j - 1].0 != k {
                    let i0 = choose|i: int|
                        0 <= i < s.drop_first().len() && (#[trigger] s.drop_first()[i]).0 == r[j
                            - 1].0;
                    assert(s[i0 + 1].0 == t[j].0);
                }
            }
        }
        assert forall|i: int, j: int| 0 <= i < j < t.len() implies (#[trigger] t[i]).0 != (
        #[trigger] t[j]).0 by {
            if i == 0 {
                assert(t[j] == r[j - 1]);
                if r[j - 1].0 == k {
                } else {
                    let i0 = choose|i2: int|
                        0 <= i2 < s.drop_first().len() && (#[trigger] s.drop_first()[i2]).0 == r[j
                            - 1].0;
                    assert(s[i0 + 1].0 == r[j - 1].0);
                    assert(s[0].0 != s[i0 + 1].0);
                }
            } else {
                assert(t[i] == r[i - 1] && t[j] == r[j - 1]);
            }
        }
    }
}


} // verus!
