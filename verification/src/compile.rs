//! The schema compiler: pattern-match a textual ASN.1 module and build the
//! dispatch tables. The patterns are run by the regex crate behind the
//! trusted items of `re`; everything built from the capture rows is
//! verified against `spec_parse`, the mathematical mirror of compilation.

use vstd::prelude::*;
use crate::re::captures_of;
use crate::re::regex_captures;
use crate::re::regex_is_valid;
use crate::re::regex_replace_all;
use crate::re::regex_valid;
use crate::re::replace_all_of;
use crate::schema::ALIAS_RESOLVE_BOUND;
use crate::schema::Asn1Schema;
use crate::schema::ChoiceAlt;
use crate::schema::FieldSpec;
use crate::schema::SYNTH_CHOICE_BASE;
use crate::schema::TagKey;
use crate::schema::assoc_get;
use crate::schema::assoc_put;
use crate::schema::spec_tag_class_from_word;
use crate::schema::spec_universal_kind_tag;
use crate::schema::tag_assoc_get;
use crate::schema::tag_assoc_put;
use crate::schema::tag_keys_unique;
use crate::schema::lemma_tag_put_unique;
use crate::util::bytes_eq;
use crate::util::spec_parse_u32;
use crate::util::upper_seq;
use vstd::string::StringSliceAdditionalSpecFns;

verus! {

/// Why a schema text was rejected.
#[derive(Clone, Copy, PartialEq, Eq, Structural, Debug)]
pub enum SchemaError {
    /// One of the compiler's patterns did not compile in the regex crate.
    Pattern,
    /// An explicit tag number in a CHOICE alternative or a field does not
    /// fit in 32 bits.
    TagNumber,
}

pub open spec fn pat_snacc() -> Seq<char> {
    r"(?is)--\s*snacc\b.*?--"@
}

fn pat_snacc_x() -> (r: &'static str)
    ensures
        r@ == pat_snacc(),
{
    r"(?is)--\s*snacc\b.*?--"
}

pub open spec fn pat_comment() -> Seq<char> {
    r"(?m)--.*?$"@
}

fn pat_comment_x() -> (r: &'static str)
    ensures
        r@ == pat_comment(),
{
    r"(?m)--.*?$"
}

pub open spec fn pat_type() -> Seq<char> {
    r"(?s)([\w-]+)\s*::=\s*(?:\[\s*(?:(APPLICATION|UNIVERSAL|PRIVATE|CONTEXT|CONTEXT-SPECIFIC)\s+)?(\d+)\s*\]\s*)?(?:IMPLICIT|EXPLICIT)?\s*(CHOICE|SEQUENCE|SET|ENUMERATED|INTEGER|OCTET STRING|BIT STRING|IA5String|UTF8String|BOOLEAN|NULL|TBCD-STRING|OBJECT IDENTIFIER|[\w-]+)\s*(?:OF\s+([\w-]+))?\s*(?:\(([^)]*)\))?\s*(\{.*?\})?"@
}

fn pat_type_x() -> (r: &'static str)
    ensures
        r@ == pat_type(),
{
    r"(?s)([\w-]+)\s*::=\s*(?:\[\s*(?:(APPLICATION|UNIVERSAL|PRIVATE|CONTEXT|CONTEXT-SPECIFIC)\s+)?(\d+)\s*\]\s*)?(?:IMPLICIT|EXPLICIT)?\s*(CHOICE|SEQUENCE|SET|ENUMERATED|INTEGER|OCTET STRING|BIT STRING|IA5String|UTF8String|BOOLEAN|NULL|TBCD-STRING|OBJECT IDENTIFIER|[\w-]+)\s*(?:OF\s+([\w-]+))?\s*(?:\(([^)]*)\))?\s*(\{.*?\})?"
}

pub open spec fn pat_alias() -> Seq<char> {
    r"(?m)^\s*([\w-]+)\s*::=\s*([\w-]+)\s*$"@
}

fn pat_alias_x() -> (r: &'static str)
    ensures
        r@ == pat_alias(),
{
    r"(?m)^\s*([\w-]+)\s*::=\s*([\w-]+)\s*$"
}

pub open spec fn pat_choice_tagged() -> Seq<char> {
    r"([\w-]+)\s*\[\s*(?:(APPLICATION|UNIVERSAL|PRIVATE|CONTEXT|CONTEXT-SPECIFIC)\s+)?(\d+)\s*\]\s*([\w-]+)"@
}

fn pat_choice_tagged_x() -> (r: &'static str)
    ensures
        r@ == pat_choice_tagged(),
{
    r"([\w-]+)\s*\[\s*(?:(APPLICATION|UNIVERSAL|PRIVATE|CONTEXT|CONTEXT-SPECIFIC)\s+)?(\d+)\s*\]\s*([\w-]+)"
}

pub open spec fn pat_choice_untagged() -> Seq<char> {
    r"([\w-]+)\s+([\w-]+)"@
}

fn pat_choice_untagged_x() -> (r: &'static str)
    ensures
        r@ == pat_choice_untagged(),
{
    r"([\w-]+)\s+([\w-]+)"
}

pub open spec fn pat_field() -> Seq<char> {
    r"(?m)^\s*([\w-]+)\s*(?:\[\s*(?:(APPLICATION|UNIVERSAL|PRIVATE|CONTEXT|CONTEXT-SPECIFIC)\s+)?(\d+)\s*\])?\s*(?:IMPLICIT|EXPLICIT)?\s+((?:SET|SEQUENCE)\s+OF\s+[\w-]+|[\w-]+)\s*(?:DEFAULT\s+[^,\n]+)?\s*(OPTIONAL)?"@
}

fn pat_field_x() -> (r: &'static str)
    ensures
        r@ == pat_field(),
{
    r"(?m)^\s*([\w-]+)\s*(?:\[\s*(?:(APPLICATION|UNIVERSAL|PRIVATE|CONTEXT|CONTEXT-SPECIFIC)\s+)?(\d+)\s*\])?\s*(?:IMPLICIT|EXPLICIT)?\s+((?:SET|SEQUENCE)\s+OF\s+[\w-]+|[\w-]+)\s*(?:DEFAULT\s+[^,\n]+)?\s*(OPTIONAL)?"
}

pub open spec fn pat_components() -> Seq<char> {
    r"(?m)^\s*COMPONENTS\s+OF\s+([\w-]+)"@
}

fn pat_components_x() -> (r: &'static str)
    ensures
        r@ == pat_components(),
{
    r"(?m)^\s*COMPONENTS\s+OF\s+([\w-]+)"
}

/// ASCII whitespace, as Rust's string trimming treats the ASCII range.
pub open spec fn is_ws(b: u8) -> bool {
    b == 32 || b == 9 || b == 10 || b == 11 || b == 12 || b == 13
}

pub open spec fn trim_left(s: Seq<u8>) -> Seq<u8>
    decreases s.len(),
{
    if s.len() > 0 && is_ws(s[0]) {
        trim_left(s.drop_first())
    } else {
        s
    }
}

pub open spec fn trim_right(s: Seq<u8>) -> Seq<u8>
    decreases s.len(),
{
    if s.len() > 0 && is_ws(s.last()) {
        trim_right(s.drop_last())
    } else {
        s
    }
}

/// `s` without leading and trailing ASCII whitespace.
pub open spec fn trim_spec(s: Seq<u8>) -> Seq<u8> {
    trim_right(trim_left(s))
}

proof fn lemma_trim_left_skip(s: Seq<u8>, i: int)
    requires
        0 <= i <= s.len(),
        forall|j: int| 0 <= j < i ==> is_ws(s[j]),
        i < s.len() ==> !is_ws(s[i]),
    ensures
        trim_left(s) == s.skip(i),
    decreases i,
{
    if i == 0 {
        assert(s.skip(0) =~= s);
    } else {
        assert(is_ws(s[0]));
        lemma_trim_left_skip(s.drop_first(), i - 1);
        assert(s.drop_first().skip(i - 1) =~= s.skip(i));
    }
}

proof fn lemma_trim_right_take(s: Seq<u8>, j: int)
    requires
        0 <= j <= s.len(),
        forall|k: int| j <= k < s.len() ==> is_ws(s[k]),
        j > 0 ==> !is_ws(s[j - 1]),
    ensures
        trim_right(s) == s.take(j),
    decreases s.len() - j,
{
    if j == s.len() {
        assert(s.take(j) =~= s);
    } else {
        assert(is_ws(s.last()));
        lemma_trim_right_take(s.drop_last(), j);
        assert(s.drop_last().take(j) =~= s.take(j));
    }
}

/// Trim ASCII whitespace from both ends.
#[verifier::loop_isolation(false)]
pub fn trim_bytes(s: &[u8]) -> (r: Vec<u8>)
    ensures
        r@ == trim_spec(s@),
{
    let n = s.len();
    let mut i: usize = 0;
    while i < n && (s[i] == 32 || s[i] == 9 || s[i] == 10 || s[i] == 11 || s[i] == 12 || s[i]
        == 13)
        invariant
            i <= n,
            forall|j: int| 0 <= j < i ==> is_ws(s@[j]),
        decreases n - i,
    {
        i = i + 1;
    }
    proof {
        lemma_trim_left_skip(s@, i as int);
    }
    let mut j: usize = n;
    while j > i && (s[j - 1] == 32 || s[j - 1] == 9 || s[j - 1] == 10 || s[j - 1] == 11 || s[j - 1]
        == 12 || s[j - 1] == 13)
        invariant
            i <= j <= n,
            forall|k: int| j <= k < n ==> is_ws(s@[k]),
        decreases j,
    {
        j = j - 1;
    }
    proof {
        if j == i {
            assert(forall|k: int| 0 <= k < s@.skip(i as int).len() ==> is_ws(
                #[trigger] s@.skip(i as int)[k],
            ));
            lemma_trim_right_take(s@.skip(i as int), 0);
        } else {
            lemma_trim_right_take(s@.skip(i as int), j - i);
        }
        assert(s@.skip(i as int).take(j - i) =~= s@.subrange(i as int, j as int));
    }
    let sub = vstd::slice::slice_subrange(s, i, j);
    vstd::slice::slice_to_vec(sub)
}

/// `s` with prefix `p` removed, when `p` leads it.
pub open spec fn strip_prefix_spec(s: Seq<u8>, p: Seq<u8>) -> Option<Seq<u8>> {
    if p.len() <= s.len() && s.take(p.len() as int) == p {
        Some(s.skip(p.len() as int))
    } else {
        None
    }
}

/// Remove prefix `p` from `s` if it leads it.
#[verifier::loop_isolation(false)]
pub fn strip_prefix_bytes(s: &[u8], p: &[u8]) -> (r: Option<Vec<u8>>)
    ensures
        match strip_prefix_spec(s@, p@) {
            Some(rest) => r matches Some(v) && v@ == rest,
            None => r is None,
        },
{
    let pn = p.len();
    let n = s.len();
    if pn > n {
        return None;
    }
    let head = vstd::slice::slice_subrange(s, 0, pn);
    if !bytes_eq(head, p) {
        proof {
            assert(s@.take(pn as int) != p@);
        }
        return None;
    }
    proof {
        assert(s@.take(pn as int) == p@);
    }
    let tail = vstd::slice::slice_subrange(s, pn, n);
    Some(vstd::slice::slice_to_vec(tail))
}

/// The reserved words a bare alias right-hand side may not be.
pub open spec fn is_alias_keyword(u: Seq<u8>) -> bool {
    ||| u == "CHOICE".spec_bytes()
    ||| u == "SEQUENCE".spec_bytes()
    ||| u == "SET".spec_bytes()
    ||| u == "ENUMERATED".spec_bytes()
    ||| u == "INTEGER".spec_bytes()
    ||| u == "OCTET".spec_bytes()
    ||| u == "BIT".spec_bytes()
    ||| u == "IA5STRING".spec_bytes()
    ||| u == "UTF8STRING".spec_bytes()
    ||| u == "BOOLEAN".spec_bytes()
    ||| u == "NULL".spec_bytes()
    ||| u == "OBJECT".spec_bytes()
    ||| u == "IDENTIFIER".spec_bytes()
    ||| u == "BEGIN".spec_bytes()
    ||| u == "END".spec_bytes()
}

fn alias_keyword(u: &[u8]) -> (r: bool)
    ensures
        r == is_alias_keyword(u@),
{
    bytes_eq(u, "CHOICE".as_bytes()) || bytes_eq(u, "SEQUENCE".as_bytes()) || bytes_eq(
        u,
        "SET".as_bytes(),
    ) || bytes_eq(u, "ENUMERATED".as_bytes()) || bytes_eq(u, "INTEGER".as_bytes()) || bytes_eq(
        u,
        "OCTET".as_bytes(),
    ) || bytes_eq(u, "BIT".as_bytes()) || bytes_eq(u, "IA5STRING".as_bytes()) || bytes_eq(
        u,
        "UTF8STRING".as_bytes(),
    ) || bytes_eq(u, "BOOLEAN".as_bytes()) || bytes_eq(u, "NULL".as_bytes()) || bytes_eq(
        u,
        "OBJECT".as_bytes(),
    ) || bytes_eq(u, "IDENTIFIER".as_bytes()) || bytes_eq(u, "BEGIN".as_bytes()) || bytes_eq(
        u,
        "END".as_bytes(),
    )
}

/// One field of a SEQUENCE or SET, at the mathematical level.
pub struct FieldModel {
    pub name: Seq<u8>,
    pub field_type: Seq<u8>,
    pub optional: bool,
    pub is_sequence_of: bool,
    pub is_set_of: bool,
}

/// The compiled schema at the mathematical level: the image of
/// `Asn1Schema` under `deep_schema`.
pub struct SchemaModel {
    pub choices: Seq<(Seq<u8>, Seq<(TagKey, (Seq<u8>, Seq<u8>))>)>,
    pub sequences: Seq<(Seq<u8>, Seq<(TagKey, FieldModel)>)>,
    pub sets: Seq<(Seq<u8>, Seq<(TagKey, FieldModel)>)>,
    pub seq_of_types: Seq<(Seq<u8>, Seq<u8>)>,
    pub set_of_types: Seq<(Seq<u8>, Seq<u8>)>,
    pub primitives: Seq<(Seq<u8>, Seq<u8>)>,
    pub aliases: Seq<(Seq<u8>, Seq<u8>)>,
    pub type_outer_tag: Seq<(Seq<u8>, TagKey)>,
}

/// First value bound to `k` in a mathematical table.
pub open spec fn sget<V>(s: Seq<(Seq<u8>, V)>, k: Seq<u8>) -> Option<V>
    decreases s.len(),
{
    if s.len() == 0 {
        None
    } else if s[0].0 == k {
        Some(s[0].1)
    } else {
        sget(s.drop_first(), k)
    }
}

/// A mathematical table with `k` bound to `v`: replaced in place or
/// appended.
pub open spec fn sput<V>(s: Seq<(Seq<u8>, V)>, k: Seq<u8>, v: V) -> Seq<(Seq<u8>, V)>
    decreases s.len(),
{
    if s.len() == 0 {
        seq![(k, v)]
    } else if s[0].0 == k {
        seq![(k, v)] + s.drop_first()
    } else {
        seq![s[0]] + sput(s.drop_first(), k, v)
    }
}

/// The mathematical image of a field table.
pub open spec fn deep_field(f: FieldSpec) -> FieldModel {
    FieldModel {
        name: f.name@,
        field_type: f.field_type@,
        optional: f.optional,
        is_sequence_of: f.is_sequence_of,
        is_set_of: f.is_set_of,
    }
}

/// The mathematical image of a CHOICE alternative.
pub open spec fn deep_alt(a: ChoiceAlt) -> (Seq<u8>, Seq<u8>) {
    (a.name@, a.alt_type@)
}

/// A tag-keyed table with each value mapped.
pub open spec fn deep_tag_kv<V, W>(s: Seq<(TagKey, V)>, f: spec_fn(V) -> W) -> Seq<(TagKey, W)> {
    s.map_values(|p: (TagKey, V)| (p.0, f(p.1)))
}

/// A name-keyed table with keys viewed and each value mapped.
pub open spec fn deep_kv<V, W>(s: Seq<(Vec<u8>, V)>, f: spec_fn(V) -> W) -> Seq<(Seq<u8>, W)> {
    s.map_values(|p: (Vec<u8>, V)| (p.0@, f(p.1)))
}

/// The mathematical image of a compiled schema.
pub open spec fn deep_schema(s: &Asn1Schema) -> SchemaModel {
    SchemaModel {
        choices: deep_kv(
            s.choices@,
            |t: Vec<(TagKey, ChoiceAlt)>| deep_tag_kv(t@, |a: ChoiceAlt| deep_alt(a)),
        ),
        sequences: deep_kv(
            s.sequences@,
            |t: Vec<(TagKey, FieldSpec)>| deep_tag_kv(t@, |f: FieldSpec| deep_field(f)),
        ),
        sets: deep_kv(
            s.sets@,
            |t: Vec<(TagKey, FieldSpec)>| deep_tag_kv(t@, |f: FieldSpec| deep_field(f)),
        ),
        seq_of_types: deep_kv(s.seq_of_types@, |v: Vec<u8>| v@),
        set_of_types: deep_kv(s.set_of_types@, |v: Vec<u8>| v@),
        primitives: deep_kv(s.primitives@, |v: Vec<u8>| v@),
        aliases: deep_kv(s.aliases@, |v: Vec<u8>| v@),
        type_outer_tag: deep_kv(s.type_outer_tag@, |v: TagKey| v),
    }
}

/// Lookup commutes with taking the mathematical image.
pub proof fn lemma_deep_get<V, W>(s: Seq<(Vec<u8>, V)>, f: spec_fn(V) -> W, k: Seq<u8>)
    ensures
        sget(deep_kv(s, f), k) == match assoc_get(s, k) {
            None => None::<W>,
            Some(v) => Some(f(v)),
        },
    decreases s.len(),
{
    if s.len() > 0 {
        assert(deep_kv(s, f)[0] == (s[0].0@, f(s[0].1)));
        assert(deep_kv(s, f).drop_first() =~= deep_kv(s.drop_first(), f));
        lemma_deep_get(s.drop_first(), f, k);
    }
}

/// Insertion commutes with taking the mathematical image.
pub proof fn lemma_deep_put<V, W>(s: Seq<(Vec<u8>, V)>, f: spec_fn(V) -> W, k: Vec<u8>, v: V)
    ensures
        deep_kv(assoc_put(s, k, v), f) == sput(deep_kv(s, f), k@, f(v)),
    decreases s.len(),
{
    if s.len() == 0 {
        assert(deep_kv(assoc_put(s, k, v), f) =~= sput(deep_kv(s, f), k@, f(v)));
    } else if s[0].0@ == k@ {
        assert(assoc_put(s, k, v) =~= seq![(k, v)] + s.drop_first());
        assert(deep_kv(s, f)[0] == (s[0].0@, f(s[0].1)));
        assert(deep_kv(assoc_put(s, k, v), f) =~= seq![(k@, f(v))] + deep_kv(s.drop_first(), f));
        assert(sput(deep_kv(s, f), k@, f(v)) =~= seq![(k@, f(v))] + deep_kv(s, f).drop_first());
        assert(deep_kv(s, f).drop_first() =~= deep_kv(s.drop_first(), f));
    } else {
        lemma_deep_put(s.drop_first(), f, k, v);
        assert(assoc_put(s, k, v) =~= seq![s[0]] + assoc_put(s.drop_first(), k, v));
        assert(deep_kv(s, f)[0] == (s[0].0@, f(s[0].1)));
        assert(deep_kv(s, f).drop_first() =~= deep_kv(s.drop_first(), f));
        assert(deep_kv(assoc_put(s, k, v), f) =~= seq![(s[0].0@, f(s[0].1))] + deep_kv(
            assoc_put(s.drop_first(), k, v),
            f,
        ));
        assert(sput(deep_kv(s, f), k@, f(v)) =~= seq![(s[0].0@, f(s[0].1))] + sput(
            deep_kv(s.drop_first(), f),
            k@,
            f(v),
        ));
        assert(deep_kv(s, f).drop_first() =~= deep_kv(s.drop_first(), f));
    }
}

/// Tag-keyed lookup commutes with taking the mathematical image.
pub proof fn lemma_deep_tag_get<V, W>(s: Seq<(TagKey, V)>, f: spec_fn(V) -> W, k: TagKey)
    ensures
        tag_assoc_get(deep_tag_kv(s, f), k) == match tag_assoc_get(s, k) {
            None => None::<W>,
            Some(v) => Some(f(v)),
        },
    decreases s.len(),
{
    if s.len() > 0 {
        assert(deep_tag_kv(s, f)[0] == (s[0].0, f(s[0].1)));
        assert(deep_tag_kv(s, f).drop_first() =~= deep_tag_kv(s.drop_first(), f));
        lemma_deep_tag_get(s.drop_first(), f, k);
    }
}

/// Tag-keyed insertion commutes with taking the mathematical image.
pub proof fn lemma_deep_tag_put<V, W>(s: Seq<(TagKey, V)>, f: spec_fn(V) -> W, k: TagKey, v: V)
    ensures
        deep_tag_kv(tag_assoc_put(s, k, v), f) == tag_assoc_put(deep_tag_kv(s, f), k, f(v)),
    decreases s.len(),
{
    if s.len() == 0 {
        assert(deep_tag_kv(tag_assoc_put(s, k, v), f) =~= tag_assoc_put(
            deep_tag_kv(s, f),
            k,
            f(v),
        ));
    } else if s[0].0 == k {
        assert(tag_assoc_put(s, k, v) =~= seq![(k, v)] + s.drop_first());
        assert(deep_tag_kv(s, f)[0] == (s[0].0, f(s[0].1)));
        assert(deep_tag_kv(tag_assoc_put(s, k, v), f) =~= seq![(k, f(v))] + deep_tag_kv(
            s.drop_first(),
            f,
        ));
        assert(tag_assoc_put(deep_tag_kv(s, f), k, f(v)) =~= seq![(k, f(v))] + deep_tag_kv(
            s,
            f,
        ).drop_first());
        assert(deep_tag_kv(s, f).drop_first() =~= deep_tag_kv(s.drop_first(), f));
    } else {
        lemma_deep_tag_put(s.drop_first(), f, k, v);
        assert(tag_assoc_put(s, k, v) =~= seq![s[0]] + tag_assoc_put(s.drop_first(), k, v));
        assert(deep_tag_kv(s, f)[0] == (s[0].0, f(s[0].1)));
        assert(deep_tag_kv(s, f).drop_first() =~= deep_tag_kv(s.drop_first(), f));
        assert(deep_tag_kv(tag_assoc_put(s, k, v), f) =~= seq![(s[0].0, f(s[0].1))] + deep_tag_kv(
            tag_assoc_put(s.drop_first(), k, v),
            f,
        ));
        assert(tag_assoc_put(deep_tag_kv(s, f), k, f(v)) =~= seq![(s[0].0, f(s[0].1))]
            + tag_assoc_put(deep_tag_kv(s.drop_first(), f), k, f(v)));
        assert(deep_tag_kv(s, f).drop_first() =~= deep_tag_kv(s.drop_first(), f));
    }
}

/// Alias resolution over the mathematical tables.
pub open spec fn m_resolve_n(aliases: Seq<(Seq<u8>, Seq<u8>)>, t: Seq<u8>, n: nat) -> Seq<u8>
    decreases n,
{
    if n == 0 {
        t
    } else {
        match sget(aliases, t) {
            None => t,
            Some(next) => m_resolve_n(aliases, next, (n - 1) as nat),
        }
    }
}

/// The name `t` resolves to, over the mathematical tables.
pub open spec fn m_resolve(m: SchemaModel, t: Seq<u8>) -> Seq<u8> {
    m_resolve_n(m.aliases, t, ALIAS_RESOLVE_BOUND as nat)
}

/// The natural outer tag of a type, over the mathematical tables.
pub open spec fn m_universal_tag(m: SchemaModel, t: Seq<u8>) -> Option<TagKey> {
    let rt = m_resolve(m, t);
    if sget(m.sequences, rt) is Some || sget(m.seq_of_types, rt) is Some {
        Some(TagKey { class: 0, num: 16 })
    } else if sget(m.sets, rt) is Some || sget(m.set_of_types, rt) is Some {
        Some(TagKey { class: 0, num: 17 })
    } else if sget(m.choices, rt) is Some {
        None
    } else {
        let kind = match sget(m.primitives, rt) {
            Some(k) => k,
            None => rt,
        };
        spec_universal_kind_tag(kind)
    }
}

/// The dispatch tag of a type, over the mathematical tables.
pub open spec fn m_tag_for_type(m: SchemaModel, t: Seq<u8>) -> Option<TagKey> {
    let rt = m_resolve(m, t);
    match sget(m.type_outer_tag, rt) {
        Some(tk) => Some(tk),
        None => m_universal_tag(m, rt),
    }
}

proof fn lemma_resolve_congr(s: &Asn1Schema, t: Seq<u8>, n: nat)
    ensures
        m_resolve_n(deep_schema(s).aliases, t, n) == crate::schema::spec_resolve_n(
            s.aliases@,
            t,
            n,
        ),
    decreases n,
{
    if n > 0 {
        lemma_deep_get(s.aliases@, |v: Vec<u8>| v@, t);
        match assoc_get(s.aliases@, t) {
            None => {},
            Some(next) => {
                lemma_resolve_congr(s, next@, (n - 1) as nat);
            },
        }
    }
}

/// The mathematical tag derivation agrees with the schema's own.
pub proof fn lemma_tag_congr(s: &Asn1Schema, t: Seq<u8>)
    ensures
        m_universal_tag(deep_schema(s), t) == crate::schema::spec_universal_tag_for_type(s, t),
        m_tag_for_type(deep_schema(s), t) == crate::schema::spec_tag_for_type(s, t),
{
    let m = deep_schema(s);
    lemma_resolve_congr(s, t, ALIAS_RESOLVE_BOUND as nat);
    let rt = crate::schema::spec_resolve(s, t);
    lemma_deep_get(s.sequences@, |tb: Vec<(TagKey, FieldSpec)>| deep_tag_kv(tb@, |f: FieldSpec| deep_field(f)), rt);
    lemma_deep_get(s.seq_of_types@, |v: Vec<u8>| v@, rt);
    lemma_deep_get(s.sets@, |tb: Vec<(TagKey, FieldSpec)>| deep_tag_kv(tb@, |f: FieldSpec| deep_field(f)), rt);
    lemma_deep_get(s.set_of_types@, |v: Vec<u8>| v@, rt);
    lemma_deep_get(s.choices@, |tb: Vec<(TagKey, ChoiceAlt)>| deep_tag_kv(tb@, |a: ChoiceAlt| deep_alt(a)), rt);
    lemma_deep_get(s.primitives@, |v: Vec<u8>| v@, rt);
    lemma_deep_get(s.type_outer_tag@, |v: TagKey| v, rt);
    lemma_resolve_congr(s, rt, ALIAS_RESOLVE_BOUND as nat);
    let rt2 = crate::schema::spec_resolve(s, rt);
    lemma_deep_get(s.sequences@, |tb: Vec<(TagKey, FieldSpec)>| deep_tag_kv(tb@, |f: FieldSpec| deep_field(f)), rt2);
    lemma_deep_get(s.seq_of_types@, |v: Vec<u8>| v@, rt2);
    lemma_deep_get(s.sets@, |tb: Vec<(TagKey, FieldSpec)>| deep_tag_kv(tb@, |f: FieldSpec| deep_field(f)), rt2);
    lemma_deep_get(s.set_of_types@, |v: Vec<u8>| v@, rt2);
    lemma_deep_get(s.choices@, |tb: Vec<(TagKey, ChoiceAlt)>| deep_tag_kv(tb@, |a: ChoiceAlt| deep_alt(a)), rt2);
    lemma_deep_get(s.primitives@, |v: Vec<u8>| v@, rt2);
    lemma_deep_get(s.type_outer_tag@, |v: TagKey| v, rt2);
}


/// The group `i` of a capture row, `None` when the row is too short.
pub open spec fn row_get(row: Seq<Option<Seq<u8>>>, i: int) -> Option<Seq<u8>> {
    if 0 <= i < row.len() {
        row[i]
    } else {
        None
    }
}

/// The alias table built from the alias-pattern rows: `A ::= B` with `B` a
/// bare identifier that is no reserved word and differs from `A`.
pub open spec fn fold_aliases(
    rows: Seq<Seq<Option<Seq<u8>>>>,
    acc: Seq<(Seq<u8>, Seq<u8>)>,
) -> Seq<(Seq<u8>, Seq<u8>)>
    decreases rows.len(),
{
    if rows.len() == 0 {
        acc
    } else {
        let row = rows[0];
        let acc2 = if row_get(row, 1) is Some && row_get(row, 2) is Some {
            let lhs = row_get(row, 1)->Some_0;
            let rhs = row_get(row, 2)->Some_0;
            if !is_alias_keyword(upper_seq(rhs)) && lhs != rhs {
                sput(acc, lhs, rhs)
            } else {
                acc
            }
        } else {
            acc
        };
        fold_aliases(rows.drop_first(), acc2)
    }
}

/// One type definition as the definition pass reads it.
pub struct DefModel {
    pub tname: Seq<u8>,
    pub tkind: Seq<u8>,
    pub of_type: Option<Seq<u8>>,
    pub body: Seq<u8>,
}

/// Whether a kind word opens a structured body.
pub open spec fn is_structural_kind(kind: Seq<u8>) -> bool {
    kind == "CHOICE".spec_bytes() || kind == "SEQUENCE".spec_bytes() || kind
        == "SET".spec_bytes()
}

/// The definition pass over the type-pattern rows: collect each
/// definition, record a declared outer tag when its number parses, and
/// record every non-structural kind word as a primitive.
pub open spec fn fold_defs(
    rows: Seq<Seq<Option<Seq<u8>>>>,
    outer: Seq<(Seq<u8>, TagKey)>,
    prims: Seq<(Seq<u8>, Seq<u8>)>,
    defs: Seq<DefModel>,
) -> (Seq<(Seq<u8>, TagKey)>, Seq<(Seq<u8>, Seq<u8>)>, Seq<DefModel>)
    decreases rows.len(),
{
    if rows.len() == 0 {
        (outer, prims, defs)
    } else {
        let row = rows[0];
        if row_get(row, 1) is Some && row_get(row, 4) is Some {
            let tname = row_get(row, 1)->Some_0;
            let kind = trim_spec(row_get(row, 4)->Some_0);
            let outer2 = match row_get(row, 3) {
                Some(num) => match spec_parse_u32(num) {
                    Some(n) => sput(
                        outer,
                        tname,
                        TagKey { class: spec_tag_class_from_word(row_get(row, 2)), num: n },
                    ),
                    None => outer,
                },
                None => outer,
            };
            let prims2 = if !is_structural_kind(kind) {
                sput(prims, tname, kind)
            } else {
                prims
            };
            let body = match row_get(row, 7) {
                Some(b) => b,
                None => Seq::empty(),
            };
            let defs2 = defs.push(
                DefModel { tname: tname, tkind: kind, of_type: row_get(row, 5), body },
            );
            fold_defs(rows.drop_first(), outer2, prims2, defs2)
        } else {
            fold_defs(rows.drop_first(), outer, prims, defs)
        }
    }
}

/// The field table of one SEQUENCE or SET body, keyed by each field's
/// dispatch tag: the explicit tag when one is written (an unparseable tag
/// number fails compilation), else the natural outer tag of the field's
/// type under the tables built so far; a field with no derivable tag is
/// dropped.
pub open spec fn fold_fields(
    rows: Seq<Seq<Option<Seq<u8>>>>,
    m: SchemaModel,
    acc: Seq<(TagKey, FieldModel)>,
) -> Result<Seq<(TagKey, FieldModel)>, SchemaError>
    decreases rows.len(),
{
    if rows.len() == 0 {
        Ok(acc)
    } else {
        let row = rows[0];
        if row_get(row, 1) is Some && row_get(row, 4) is Some {
            let fname = row_get(row, 1)->Some_0;
            let type_spec = trim_spec(row_get(row, 4)->Some_0);
            let optional = row_get(row, 5) is Some;
            let parts = match strip_prefix_spec(type_spec, "SEQUENCE OF ".spec_bytes()) {
                Some(rest) => (true, false, trim_spec(rest)),
                None => match strip_prefix_spec(type_spec, "SET OF ".spec_bytes()) {
                    Some(rest) => (false, true, trim_spec(rest)),
                    None => (false, false, type_spec),
                },
            };
            match row_get(row, 3) {
                Some(tstr) => match spec_parse_u32(tstr) {
                    None => Err(SchemaError::TagNumber),
                    Some(n) => {
                        let key = TagKey {
                            class: spec_tag_class_from_word(row_get(row, 2)),
                            num: n,
                        };
                        let fm = FieldModel {
                            name: fname,
                            field_type: parts.2,
                            optional,
                            is_sequence_of: parts.0,
                            is_set_of: parts.1,
                        };
                        fold_fields(rows.drop_first(), m, tag_assoc_put(acc, key, fm))
                    },
                },
                None => match m_tag_for_type(m, parts.2) {
                    Some(key) => {
                        let fm = FieldModel {
                            name: fname,
                            field_type: parts.2,
                            optional,
                            is_sequence_of: parts.0,
                            is_set_of: parts.1,
                        };
                        fold_fields(rows.drop_first(), m, tag_assoc_put(acc, key, fm))
                    },
                    None => fold_fields(rows.drop_first(), m, acc),
                },
            }
        } else {
            fold_fields(rows.drop_first(), m, acc)
        }
    }
}

/// The alternative table of a CHOICE with explicitly tagged alternatives;
/// an unparseable tag number fails compilation.
pub open spec fn fold_choice_tagged(
    rows: Seq<Seq<Option<Seq<u8>>>>,
    acc: Seq<(TagKey, (Seq<u8>, Seq<u8>))>,
) -> Result<Seq<(TagKey, (Seq<u8>, Seq<u8>))>, SchemaError>
    decreases rows.len(),
{
    if rows.len() == 0 {
        Ok(acc)
    } else {
        let row = rows[0];
        if row_get(row, 1) is Some && row_get(row, 3) is Some && row_get(row, 4) is Some {
            match spec_parse_u32(row_get(row, 3)->Some_0) {
                None => Err(SchemaError::TagNumber),
                Some(n) => {
                    let key = TagKey { class: spec_tag_class_from_word(row_get(row, 2)), num: n };
                    fold_choice_tagged(
                        rows.drop_first(),
                        tag_assoc_put(acc, key, (row_get(row, 1)->Some_0, row_get(row, 4)->Some_0)),
                    )
                },
            }
        } else {
            fold_choice_tagged(rows.drop_first(), acc)
        }
    }
}

/// The alternative table of an untagged CHOICE: each alternative in
/// declaration order gets a synthetic tag key in the reserved range, the
/// conventional placeholders are dropped, and at most 255 alternatives are
/// taken.
pub open spec fn fold_choice_untagged(
    rows: Seq<Seq<Option<Seq<u8>>>>,
    acc: Seq<(TagKey, (Seq<u8>, Seq<u8>))>,
    idx: nat,
) -> Seq<(TagKey, (Seq<u8>, Seq<u8>))>
    decreases rows.len(),
{
    if rows.len() == 0 {
        acc
    } else {
        let row = rows[0];
        if row_get(row, 1) is Some && row_get(row, 2) is Some {
            let fname = row_get(row, 1)->Some_0;
            let ftype = row_get(row, 2)->Some_0;
            if fname == "isPdu".spec_bytes() || fname == "TRUE".spec_bytes() {
                fold_choice_untagged(rows.drop_first(), acc, idx)
            } else if fname.len() > 0 && ftype.len() > 0 && idx < 255 {
                let key = TagKey { class: 3, num: (SYNTH_CHOICE_BASE + idx) as u32 };
                fold_choice_untagged(
                    rows.drop_first(),
                    tag_assoc_put(acc, key, (fname, ftype)),
                    idx + 1,
                )
            } else {
                fold_choice_untagged(rows.drop_first(), acc, idx)
            }
        } else {
            fold_choice_untagged(rows.drop_first(), acc, idx)
        }
    }
}

/// The COMPONENTS OF references of one body, as (target, source) pairs.
pub open spec fn fold_components_refs(
    rows: Seq<Seq<Option<Seq<u8>>>>,
    target: Seq<u8>,
    acc: Seq<(Seq<u8>, Seq<u8>)>,
) -> Seq<(Seq<u8>, Seq<u8>)>
    decreases rows.len(),
{
    if rows.len() == 0 {
        acc
    } else {
        let row = rows[0];
        let acc2 = if row_get(row, 1) is Some {
            acc.push((target, row_get(row, 1)->Some_0))
        } else {
            acc
        };
        fold_components_refs(rows.drop_first(), target, acc2)
    }
}

/// The structure pass over the collected definitions, in order: a SEQUENCE
/// OF or SET OF records its element type; a SEQUENCE or SET builds its
/// field table against the tables built so far and queues its COMPONENTS OF
/// references; a CHOICE builds its alternative table, tagged alternatives
/// first and the untagged fallback when none are tagged.
pub open spec fn fold_structs(
    defs: Seq<DefModel>,
    m: SchemaModel,
    queue: Seq<(Seq<u8>, Seq<u8>)>,
) -> Result<(SchemaModel, Seq<(Seq<u8>, Seq<u8>)>), SchemaError>
    decreases defs.len(),
{
    if defs.len() == 0 {
        Ok((m, queue))
    } else {
        let d = defs[0];
        if d.tkind == "SEQUENCE".spec_bytes() || d.tkind == "SET".spec_bytes() {
            let is_set = d.tkind == "SET".spec_bytes();
            match d.of_type {
                Some(elem) => {
                    let m2 = if is_set {
                        SchemaModel { set_of_types: sput(m.set_of_types, d.tname, elem), ..m }
                    } else {
                        SchemaModel { seq_of_types: sput(m.seq_of_types, d.tname, elem), ..m }
                    };
                    fold_structs(defs.drop_first(), m2, queue)
                },
                None => {
                    match fold_fields(captures_of(pat_field(), d.body), m, Seq::empty()) {
                        Err(e) => Err(e),
                        Ok(fields) => {
                            let queue2 = fold_components_refs(
                                captures_of(pat_components(), d.body),
                                d.tname,
                                queue,
                            );
                            let m2 = if is_set {
                                SchemaModel { sets: sput(m.sets, d.tname, fields), ..m }
                            } else {
                                SchemaModel {
                                    sequences: sput(m.sequences, d.tname, fields),
                                    ..m
                                }
                            };
                            fold_structs(defs.drop_first(), m2, queue2)
                        },
                    }
                },
            }
        } else if d.tkind == "CHOICE".spec_bytes() {
            match fold_choice_tagged(captures_of(pat_choice_tagged(), d.body), Seq::empty()) {
                Err(e) => Err(e),
                Ok(alts) => {
                    let alts2 = if alts.len() == 0 {
                        fold_choice_untagged(
                            captures_of(pat_choice_untagged(), d.body),
                            Seq::empty(),
                            0,
                        )
                    } else {
                        alts
                    };
                    let m2 = SchemaModel { choices: sput(m.choices, d.tname, alts2), ..m };
                    fold_structs(defs.drop_first(), m2, queue)
                },
            }
        } else {
            fold_structs(defs.drop_first(), m, queue)
        }
    }
}

/// A field table extended with another's bindings, in order.
pub open spec fn extend_fields(
    tgt: Seq<(TagKey, FieldModel)>,
    src: Seq<(TagKey, FieldModel)>,
) -> Seq<(TagKey, FieldModel)>
    decreases src.len(),
{
    if src.len() == 0 {
        tgt
    } else {
        extend_fields(tag_assoc_put(tgt, src[0].0, src[0].1), src.drop_first())
    }
}

/// The COMPONENTS OF pass: after all declarations, each reference inlines
/// the source type's fields into the target's table.
pub open spec fn fold_component_queue(
    queue: Seq<(Seq<u8>, Seq<u8>)>,
    m: SchemaModel,
) -> SchemaModel
    decreases queue.len(),
{
    if queue.len() == 0 {
        m
    } else {
        let target = queue[0].0;
        let source = queue[0].1;
        let src_fields = match sget(m.sequences, source) {
            Some(f) => Some(f),
            None => sget(m.sets, source),
        };
        let m2 = match src_fields {
            None => m,
            Some(sf) => match sget(m.sequences, target) {
                Some(tf) => SchemaModel {
                    sequences: sput(m.sequences, target, extend_fields(tf, sf)),
                    ..m
                },
                None => match sget(m.sets, target) {
                    Some(tf) => SchemaModel { sets: sput(m.sets, target, extend_fields(tf, sf)), ..m },
                    None => m,
                },
            },
        };
        fold_component_queue(queue.drop_first(), m2)
    }
}

/// The empty mathematical schema.
pub open spec fn empty_model() -> SchemaModel {
    SchemaModel {
        choices: Seq::empty(),
        sequences: Seq::empty(),
        sets: Seq::empty(),
        seq_of_types: Seq::empty(),
        set_of_types: Seq::empty(),
        primitives: Seq::empty(),
        aliases: Seq::empty(),
        type_outer_tag: Seq::empty(),
    }
}

/// Whether every pattern the compiler runs compiles in the regex crate.
pub open spec fn all_patterns_valid() -> bool {
    &&& regex_valid(pat_snacc())
    &&& regex_valid(pat_comment())
    &&& regex_valid(pat_type())
    &&& regex_valid(pat_alias())
    &&& regex_valid(pat_choice_tagged())
    &&& regex_valid(pat_choice_untagged())
    &&& regex_valid(pat_field())
    &&& regex_valid(pat_components())
}

/// Compilation of a schema text, mathematically: strip SNACC directive
/// blocks and line comments, read the aliases, collect the definitions,
/// build the structures in order, and inline COMPONENTS OF references.
pub open spec fn spec_parse(text: Seq<u8>) -> Result<SchemaModel, SchemaError> {
    if !all_patterns_valid() {
        Err(SchemaError::Pattern)
    } else {
        let no_snacc = replace_all_of(pat_snacc(), text, " ".spec_bytes());
        let stripped = replace_all_of(pat_comment(), no_snacc, "".spec_bytes());
        let aliases = fold_aliases(captures_of(pat_alias(), stripped), Seq::empty());
        let dp = fold_defs(
            captures_of(pat_type(), stripped),
            Seq::empty(),
            Seq::empty(),
            Seq::empty(),
        );
        let m0 = SchemaModel {
            primitives: dp.1,
            aliases: aliases,
            type_outer_tag: dp.0,
            ..empty_model()
        };
        match fold_structs(dp.2, m0, Seq::empty()) {
            Err(e) => Err(e),
            Ok(mq) => Ok(fold_component_queue(mq.1, mq.0)),
        }
    }
}


/// One collected type definition.
struct Def {
    tname: Vec<u8>,
    tkind: Vec<u8>,
    of_type: Option<Vec<u8>>,
    body: Vec<u8>,
}

spec fn deep_def(d: Def) -> DefModel {
    DefModel {
        tname: d.tname@,
        tkind: d.tkind@,
        of_type: match d.of_type {
            Some(v) => Some(v@),
            None => None,
        },
        body: d.body@,
    }
}

spec fn deep_defs(s: Seq<Def>) -> Seq<DefModel> {
    s.map_values(|d: Def| deep_def(d))
}

/// The capture group `i` of a row, as `row_get` reads it.
fn opt_group<'a>(row: &'a Vec<Option<Vec<u8>>>, i: usize) -> (r: Option<&'a Vec<u8>>)
    ensures
        match row_get(row.deep_view(), i as int) {
            Some(s) => r matches Some(v) && v@ == s,
            None => r is None,
        },
{
    if i < row.len() {
        match &row[i] {
            Some(v) => Some(v),
            None => None,
        }
    } else {
        None
    }
}

/// The alias table read from the alias-pattern rows.
#[verifier::loop_isolation(false)]
fn build_aliases(rows: &Vec<Vec<Option<Vec<u8>>>>) -> (r: Vec<(Vec<u8>, Vec<u8>)>)
    ensures
        deep_kv(r@, |v: Vec<u8>| v@) == fold_aliases(rows.deep_view(), Seq::empty()),
{
    let mut acc: Vec<(Vec<u8>, Vec<u8>)> = Vec::new();
    let n = rows.len();
    let mut i: usize = 0;
    proof {
        assert(rows.deep_view().skip(0) =~= rows.deep_view());
        assert(deep_kv(acc@, |v: Vec<u8>| v@) =~= Seq::<(Seq<u8>, Seq<u8>)>::empty());
    }
    while i < n
        invariant
            i <= n,
            n == rows@.len(),
            rows.deep_view().len() == n,
            fold_aliases(rows.deep_view(), Seq::empty()) == fold_aliases(
                rows.deep_view().skip(i as int),
                deep_kv(acc@, |v: Vec<u8>| v@),
            ),
        decreases n - i,
    {
        let row = &rows[i];
        let ghost drow = rows.deep_view()[i as int];
        proof {
            assert(drow =~= row.deep_view());
            assert(rows.deep_view().skip(i as int)[0] == drow);
            assert(rows.deep_view().skip(i as int).drop_first() =~= rows.deep_view().skip(i + 1));
        }
        match (opt_group(row, 1), opt_group(row, 2)) {
            (Some(lhs), Some(rhs)) => {
                let u = crate::util::to_ascii_upper(rhs.as_slice());
                if !alias_keyword(u.as_slice()) && !bytes_eq(lhs.as_slice(), rhs.as_slice()) {
                    let k = vstd::slice::slice_to_vec(lhs.as_slice());
                    let v = vstd::slice::slice_to_vec(rhs.as_slice());
                    proof {
                        lemma_deep_put(acc@, |v2: Vec<u8>| v2@, k, v);
                    }
                    crate::schema::assoc_insert(&mut acc, k, v);
                }
            },
            _ => {},
        }
        i = i + 1;
    }
    proof {
        assert(rows.deep_view().skip(n as int) =~= Seq::<Seq<Option<Seq<u8>>>>::empty());
    }
    acc
}

/// The definition pass over the type-pattern rows.
#[verifier::loop_isolation(false)]
fn build_defs(rows: &Vec<Vec<Option<Vec<u8>>>>) -> (r: (
    Vec<(Vec<u8>, TagKey)>,
    Vec<(Vec<u8>, Vec<u8>)>,
    Vec<Def>,
))
    ensures
        ({
            let f = fold_defs(rows.deep_view(), Seq::empty(), Seq::empty(), Seq::empty());
            &&& deep_kv(r.0@, |v: TagKey| v) == f.0
            &&& deep_kv(r.1@, |v: Vec<u8>| v@) == f.1
            &&& deep_defs(r.2@) == f.2
        }),
{
    let mut outer: Vec<(Vec<u8>, TagKey)> = Vec::new();
    let mut prims: Vec<(Vec<u8>, Vec<u8>)> = Vec::new();
    let mut defs: Vec<Def> = Vec::new();
    let n = rows.len();
    let mut i: usize = 0;
    proof {
        assert(rows.deep_view().skip(0) =~= rows.deep_view());
        assert(deep_kv(outer@, |v: TagKey| v) =~= Seq::<(Seq<u8>, TagKey)>::empty());
        assert(deep_kv(prims@, |v: Vec<u8>| v@) =~= Seq::<(Seq<u8>, Seq<u8>)>::empty());
        assert(deep_defs(defs@) =~= Seq::<DefModel>::empty());
    }
    while i < n
        invariant
            i <= n,
            n == rows@.len(),
            rows.deep_view().len() == n,
            fold_defs(rows.deep_view(), Seq::empty(), Seq::empty(), Seq::empty()) == fold_defs(
                rows.deep_view().skip(i as int),
                deep_kv(outer@, |v: TagKey| v),
                deep_kv(prims@, |v: Vec<u8>| v@),
                deep_defs(defs@),
            ),
        decreases n - i,
    {
        let row = &rows[i];
        let ghost drow = rows.deep_view()[i as int];
        proof {
            assert(drow =~= row.deep_view());
            assert(rows.deep_view().skip(i as int)[0] == drow);
            assert(rows.deep_view().skip(i as int).drop_first() =~= rows.deep_view().skip(i + 1));
        }
        match (opt_group(row, 1), opt_group(row, 4)) {
            (Some(tname), Some(kind_raw)) => {
                let kind = trim_bytes(kind_raw.as_slice());
                match opt_group(row, 3) {
                    Some(numstr) => {
                        match crate::util::parse_u32_digits(numstr.as_slice()) {
                            Some(nv) => {
                                let cls = match opt_group(row, 2) {
                                    Some(w) => crate::schema::tag_class_from_word(
                                        Some(w.as_slice()),
                                    ),
                                    None => crate::schema::tag_class_from_word(None),
                                };
                                let k = vstd::slice::slice_to_vec(tname.as_slice());
                                proof {
                                    lemma_deep_put(
                                        outer@,
                                        |v: TagKey| v,
                                        k,
                                        TagKey { class: cls, num: nv },
                                    );
                                }
                                crate::schema::assoc_insert(
                                    &mut outer,
                                    k,
                                    TagKey { class: cls, num: nv },
                                );
                            },
                            None => {},
                        }
                    },
                    None => {},
                }
                let structural = bytes_eq(kind.as_slice(), "CHOICE".as_bytes()) || bytes_eq(
                    kind.as_slice(),
                    "SEQUENCE".as_bytes(),
                ) || bytes_eq(kind.as_slice(), "SET".as_bytes());
                if !structural {
                    let k = vstd::slice::slice_to_vec(tname.as_slice());
                    let v = vstd::slice::slice_to_vec(kind.as_slice());
                    proof {
                        lemma_deep_put(prims@, |v2: Vec<u8>| v2@, k, v);
                    }
                    crate::schema::assoc_insert(&mut prims, k, v);
                }
                let of_type: Option<Vec<u8>> = match opt_group(row, 5) {
                    Some(o) => Some(vstd::slice::slice_to_vec(o.as_slice())),
                    None => None,
                };
                let body: Vec<u8> = match opt_group(row, 7) {
                    Some(b) => vstd::slice::slice_to_vec(b.as_slice()),
                    None => Vec::new(),
                };
                let ghost old_defs = defs@;
                let d = Def {
                    tname: vstd::slice::slice_to_vec(tname.as_slice()),
                    tkind: kind,
                    of_type,
                    body,
                };
                proof {
                    assert(deep_defs(old_defs.push(d)) =~= deep_defs(old_defs).push(deep_def(d)));
                }
                defs.push(d);
            },
            _ => {},
        }
        i = i + 1;
    }
    proof {
        assert(rows.deep_view().skip(n as int) =~= Seq::<Seq<Option<Seq<u8>>>>::empty());
    }
    (outer, prims, defs)
}


/// The field table of one SEQUENCE or SET body, against the schema built
/// so far.
#[verifier::loop_isolation(false)]
fn build_fields(rows: &Vec<Vec<Option<Vec<u8>>>>, schema: &Asn1Schema) -> (r: Result<
    Vec<(TagKey, FieldSpec)>,
    SchemaError,
>)
    ensures
        match fold_fields(rows.deep_view(), deep_schema(schema), Seq::empty()) {
            Ok(fm) => r matches Ok(v) && deep_tag_kv(v@, |f: FieldSpec| deep_field(f)) == fm,
            Err(e) => r matches Err(e2) && e2 == e,
        },
{
    let mut acc: Vec<(TagKey, FieldSpec)> = Vec::new();
    let n = rows.len();
    let mut i: usize = 0;
    proof {
        assert(rows.deep_view().skip(0) =~= rows.deep_view());
        assert(deep_tag_kv(acc@, |f: FieldSpec| deep_field(f)) =~= Seq::<
            (TagKey, FieldModel),
        >::empty());
    }
    while i < n
        invariant
            i <= n,
            n == rows@.len(),
            rows.deep_view().len() == n,
            fold_fields(rows.deep_view(), deep_schema(schema), Seq::empty()) == fold_fields(
                rows.deep_view().skip(i as int),
                deep_schema(schema),
                deep_tag_kv(acc@, |f: FieldSpec| deep_field(f)),
            ),
        decreases n - i,
    {
        let row = &rows[i];
        let ghost drow = rows.deep_view()[i as int];
        proof {
            assert(drow =~= row.deep_view());
            assert(rows.deep_view().skip(i as int)[0] == drow);
            assert(rows.deep_view().skip(i as int).drop_first() =~= rows.deep_view().skip(i + 1));
        }
        match (opt_group(row, 1), opt_group(row, 4)) {
            (Some(fname), Some(ts_raw)) => {
                let type_spec = trim_bytes(ts_raw.as_slice());
                let optional = opt_group(row, 5).is_some();
                let mut is_sequence_of = false;
                let mut is_set_of = false;
                let element_type: Vec<u8> = match strip_prefix_bytes(
                    type_spec.as_slice(),
                    "SEQUENCE OF ".as_bytes(),
                ) {
                    Some(rest) => {
                        is_sequence_of = true;
                        trim_bytes(rest.as_slice())
                    },
                    None => match strip_prefix_bytes(type_spec.as_slice(), "SET OF ".as_bytes()) {
                        Some(rest) => {
                            is_set_of = true;
                            trim_bytes(rest.as_slice())
                        },
                        None => type_spec,
                    },
                };
                let key_opt: Option<TagKey> = match opt_group(row, 3) {
                    Some(tstr) => {
                        match crate::util::parse_u32_digits(tstr.as_slice()) {
                            Some(nv) => {
                                let cls = match opt_group(row, 2) {
                                    Some(w) => crate::schema::tag_class_from_word(
                                        Some(w.as_slice()),
                                    ),
                                    None => crate::schema::tag_class_from_word(None),
                                };
                                Some(TagKey { class: cls, num: nv })
                            },
                            None => {
                                return Err(SchemaError::TagNumber);
                            },
                        }
                    },
                    None => {
                        proof {
                            lemma_tag_congr(schema, element_type@);
                        }
                        schema.tag_for_type(element_type.as_slice())
                    },
                };
                match key_opt {
                    Some(key) => {
                        let f = FieldSpec {
                            name: vstd::slice::slice_to_vec(fname.as_slice()),
                            field_type: element_type,
                            optional,
                            is_sequence_of,
                            is_set_of,
                        };
                        proof {
                            lemma_deep_tag_put(acc@, |f2: FieldSpec| deep_field(f2), key, f);
                        }
                        crate::schema::tag_assoc_insert(&mut acc, key, f);
                    },
                    None => {},
                }
            },
            _ => {},
        }
        i = i + 1;
    }
    proof {
        assert(rows.deep_view().skip(n as int) =~= Seq::<Seq<Option<Seq<u8>>>>::empty());
    }
    Ok(acc)
}

/// The alternative table of a CHOICE with tagged alternatives.
#[verifier::loop_isolation(false)]
fn build_choice_tagged(rows: &Vec<Vec<Option<Vec<u8>>>>) -> (r: Result<
    Vec<(TagKey, ChoiceAlt)>,
    SchemaError,
>)
    ensures
        match fold_choice_tagged(rows.deep_view(), Seq::empty()) {
            Ok(am) => r matches Ok(v) && deep_tag_kv(v@, |a: ChoiceAlt| deep_alt(a)) == am,
            Err(e) => r matches Err(e2) && e2 == e,
        },
{
    let mut acc: Vec<(TagKey, ChoiceAlt)> = Vec::new();
    let n = rows.len();
    let mut i: usize = 0;
    proof {
        assert(rows.deep_view().skip(0) =~= rows.deep_view());
        assert(deep_tag_kv(acc@, |a: ChoiceAlt| deep_alt(a)) =~= Seq::<
            (TagKey, (Seq<u8>, Seq<u8>)),
        >::empty());
    }
    while i < n
        invariant
            i <= n,
            n == rows@.len(),
            rows.deep_view().len() == n,
            fold_choice_tagged(rows.deep_view(), Seq::empty()) == fold_choice_tagged(
                rows.deep_view().skip(i as int),
                deep_tag_kv(acc@, |a: ChoiceAlt| deep_alt(a)),
            ),
        decreases n - i,
    {
        let row = &rows[i];
        let ghost drow = rows.deep_view()[i as int];
        proof {
            assert(drow =~= row.deep_view());
            assert(rows.deep_view().skip(i as int)[0] == drow);
            assert(rows.deep_view().skip(i as int).drop_first() =~= rows.deep_view().skip(i + 1));
        }
        match (opt_group(row, 1), opt_group(row, 3), opt_group(row, 4)) {
            (Some(fname), Some(tstr), Some(ftype)) => {
                match crate::util::parse_u32_digits(tstr.as_slice()) {
                    Some(nv) => {
                        let cls = match opt_group(row, 2) {
                            Some(w) => crate::schema::tag_class_from_word(Some(w.as_slice())),
                            None => crate::schema::tag_class_from_word(None),
                        };
                        let key = TagKey { class: cls, num: nv };
                        let a = ChoiceAlt {
                            name: vstd::slice::slice_to_vec(fname.as_slice()),
                            alt_type: vstd::slice::slice_to_vec(ftype.as_slice()),
                        };
                        proof {
                            lemma_deep_tag_put(acc@, |a2: ChoiceAlt| deep_alt(a2), key, a);
                        }
                        crate::schema::tag_assoc_insert(&mut acc, key, a);
                    },
                    None => {
                        return Err(SchemaError::TagNumber);
                    },
                }
            },
            _ => {},
        }
        i = i + 1;
    }
    proof {
        assert(rows.deep_view().skip(n as int) =~= Seq::<Seq<Option<Seq<u8>>>>::empty());
    }
    Ok(acc)
}

/// The alternative table of an untagged CHOICE: synthetic keys in
/// declaration order.
#[verifier::loop_isolation(false)]
fn build_choice_untagged(rows: &Vec<Vec<Option<Vec<u8>>>>) -> (r: Vec<(TagKey, ChoiceAlt)>)
    ensures
        deep_tag_kv(r@, |a: ChoiceAlt| deep_alt(a)) == fold_choice_untagged(
            rows.deep_view(),
            Seq::empty(),
            0,
        ),
{
    let mut acc: Vec<(TagKey, ChoiceAlt)> = Vec::new();
    let mut idx: u32 = 0;
    let n = rows.len();
    let mut i: usize = 0;
    proof {
        assert(rows.deep_view().skip(0) =~= rows.deep_view());
        assert(deep_tag_kv(acc@, |a: ChoiceAlt| deep_alt(a)) =~= Seq::<
            (TagKey, (Seq<u8>, Seq<u8>)),
        >::empty());
    }
    while i < n
        invariant
            i <= n,
            n == rows@.len(),
            rows.deep_view().len() == n,
            idx <= 255,
            fold_choice_untagged(rows.deep_view(), Seq::empty(), 0) == fold_choice_untagged(
                rows.deep_view().skip(i as int),
                deep_tag_kv(acc@, |a: ChoiceAlt| deep_alt(a)),
                idx as nat,
            ),
        decreases n - i,
    {
        let row = &rows[i];
        let ghost drow = rows.deep_view()[i as int];
        proof {
            assert(drow =~= row.deep_view());
            assert(rows.deep_view().skip(i as int)[0] == drow);
            assert(rows.deep_view().skip(i as int).drop_first() =~= rows.deep_view().skip(i + 1));
        }
        match (opt_group(row, 1), opt_group(row, 2)) {
            (Some(fname), Some(ftype)) => {
                let placeholder = bytes_eq(fname.as_slice(), "isPdu".as_bytes()) || bytes_eq(
                    fname.as_slice(),
                    "TRUE".as_bytes(),
                );
                if !placeholder && fname.len() > 0 && ftype.len() > 0 && idx < 255 {
                    let key = TagKey { class: 3, num: SYNTH_CHOICE_BASE + idx };
                    let a = ChoiceAlt {
                        name: vstd::slice::slice_to_vec(fname.as_slice()),
                        alt_type: vstd::slice::slice_to_vec(ftype.as_slice()),
                    };
                    proof {
                        lemma_deep_tag_put(acc@, |a2: ChoiceAlt| deep_alt(a2), key, a);
                    }
                    crate::schema::tag_assoc_insert(&mut acc, key, a);
                    idx = idx + 1;
                }
            },
            _ => {},
        }
        i = i + 1;
    }
    proof {
        assert(rows.deep_view().skip(n as int) =~= Seq::<Seq<Option<Seq<u8>>>>::empty());
    }
    acc
}

/// The COMPONENTS OF references of one body, appended to the queue.
#[verifier::loop_isolation(false)]
fn push_components_refs(
    rows: &Vec<Vec<Option<Vec<u8>>>>,
    target: &[u8],
    queue: &mut Vec<(Vec<u8>, Vec<u8>)>,
)
    ensures
        deep_kv(final(queue)@, |v: Vec<u8>| v@) == fold_components_refs(
            rows.deep_view(),
            target@,
            deep_kv(old(queue)@, |v: Vec<u8>| v@),
        ),
{
    let n = rows.len();
    let mut i: usize = 0;
    proof {
        assert(rows.deep_view().skip(0) =~= rows.deep_view());
    }
    while i < n
        invariant
            i <= n,
            n == rows@.len(),
            rows.deep_view().len() == n,
            fold_components_refs(rows.deep_view(), target@, deep_kv(
                old(queue)@,
                |v: Vec<u8>| v@,
            )) == fold_components_refs(
                rows.deep_view().skip(i as int),
                target@,
                deep_kv(queue@, |v: Vec<u8>| v@),
            ),
        decreases n - i,
    {
        let row = &rows[i];
        let ghost drow = rows.deep_view()[i as int];
        proof {
            assert(drow =~= row.deep_view());
            assert(rows.deep_view().skip(i as int)[0] == drow);
            assert(rows.deep_view().skip(i as int).drop_first() =~= rows.deep_view().skip(i + 1));
        }
        match opt_group(row, 1) {
            Some(src) => {
                let ghost before = queue@;
                queue.push(
                    (
                        vstd::slice::slice_to_vec(target),
                        vstd::slice::slice_to_vec(src.as_slice()),
                    ),
                );
                proof {
                    assert(deep_kv(queue@, |v: Vec<u8>| v@) =~= deep_kv(
                        before,
                        |v: Vec<u8>| v@,
                    ).push((target@, src@)));
                }
            },
            None => {},
        }
        i = i + 1;
    }
    proof {
        assert(rows.deep_view().skip(n as int) =~= Seq::<Seq<Option<Seq<u8>>>>::empty());
    }
}


/// A field specification with its own storage.
fn copy_field(f: &FieldSpec) -> (r: FieldSpec)
    ensures
        deep_field(r) == deep_field(*f),
{
    FieldSpec {
        name: vstd::slice::slice_to_vec(f.name.as_slice()),
        field_type: vstd::slice::slice_to_vec(f.field_type.as_slice()),
        optional: f.optional,
        is_sequence_of: f.is_sequence_of,
        is_set_of: f.is_set_of,
    }
}

/// A field table with its own storage.
#[verifier::loop_isolation(false)]
fn copy_fields(v: &Vec<(TagKey, FieldSpec)>) -> (r: Vec<(TagKey, FieldSpec)>)
    ensures
        deep_tag_kv(r@, |f: FieldSpec| deep_field(f)) == deep_tag_kv(
            v@,
            |f: FieldSpec| deep_field(f),
        ),
{
    let mut out: Vec<(TagKey, FieldSpec)> = Vec::new();
    let n = v.len();
    let mut i: usize = 0;
    while i < n
        invariant
            i <= n,
            n == v@.len(),
            deep_tag_kv(out@, |f: FieldSpec| deep_field(f)) == deep_tag_kv(
                v@.take(i as int),
                |f: FieldSpec| deep_field(f),
            ),
        decreases n - i,
    {
        let pair = &v[i];
        let ghost before = out@;
        let fcopy = copy_field(&pair.1);
        let ghost dcopy = deep_field(fcopy);
        out.push((pair.0, fcopy));
        proof {
            assert(dcopy == deep_field(v@[i as int].1));
            assert(deep_tag_kv(out@, |f: FieldSpec| deep_field(f)) =~= deep_tag_kv(
                before,
                |f: FieldSpec| deep_field(f),
            ).push((v@[i as int].0, dcopy)));
            assert(v@.take(i + 1) =~= v@.take(i as int).push(v@[i as int]));
            assert(deep_tag_kv(v@.take(i as int).push(v@[i as int]), |f: FieldSpec| deep_field(f))
                =~= deep_tag_kv(v@.take(i as int), |f: FieldSpec| deep_field(f)).push(
                (v@[i as int].0, deep_field(v@[i as int].1)),
            ));
        }
        i = i + 1;
    }
    proof {
        assert(v@.take(n as int) =~= v@);
    }
    out
}

/// Extend a field table with another's bindings, in order.
#[verifier::loop_isolation(false)]
fn extend_fields_exec(tgt: &mut Vec<(TagKey, FieldSpec)>, src: &Vec<(TagKey, FieldSpec)>)
    ensures
        deep_tag_kv(final(tgt)@, |f: FieldSpec| deep_field(f)) == extend_fields(
            deep_tag_kv(old(tgt)@, |f: FieldSpec| deep_field(f)),
            deep_tag_kv(src@, |f: FieldSpec| deep_field(f)),
        ),
{
    let ghost dsrc = deep_tag_kv(src@, |f: FieldSpec| deep_field(f));
    let n = src.len();
    let mut i: usize = 0;
    proof {
        assert(dsrc.skip(0) =~= dsrc);
    }
    while i < n
        invariant
            i <= n,
            n == src@.len(),
            dsrc.len() == n,
            dsrc == deep_tag_kv(src@, |f: FieldSpec| deep_field(f)),
            extend_fields(
                deep_tag_kv(old(tgt)@, |f: FieldSpec| deep_field(f)),
                dsrc,
            ) == extend_fields(
                deep_tag_kv(tgt@, |f: FieldSpec| deep_field(f)),
                dsrc.skip(i as int),
            ),
        decreases n - i,
    {
        let pair = &src[i];
        proof {
            assert(dsrc[i as int] == (src@[i as int].0, deep_field(src@[i as int].1)));
            assert(dsrc.skip(i as int)[0] == dsrc[i as int]);
            assert(dsrc.skip(i as int).drop_first() =~= dsrc.skip(i + 1));
        }
        let f = copy_field(&pair.1);
        proof {
            lemma_deep_tag_put(tgt@, |f2: FieldSpec| deep_field(f2), pair.0, f);
        }
        crate::schema::tag_assoc_insert(tgt, pair.0, f);
        i = i + 1;
    }
    proof {
        assert(dsrc.skip(n as int) =~= Seq::<(TagKey, FieldModel)>::empty());
    }
}

/// Inline every queued COMPONENTS OF reference, in queue order.
#[verifier::loop_isolation(false)]
fn apply_components(queue: &Vec<(Vec<u8>, Vec<u8>)>, schema: &mut Asn1Schema)
    ensures
        deep_schema(final(schema)) == fold_component_queue(
            deep_kv(queue@, |v: Vec<u8>| v@),
            deep_schema(old(schema)),
        ),
{
    let ghost dq = deep_kv(queue@, |v: Vec<u8>| v@);
    let n = queue.len();
    let mut i: usize = 0;
    proof {
        assert(dq.skip(0) =~= dq);
    }
    while i < n
        invariant
            i <= n,
            n == queue@.len(),
            dq.len() == n,
            dq == deep_kv(queue@, |v: Vec<u8>| v@),
            fold_component_queue(dq, deep_schema(old(schema))) == fold_component_queue(
                dq.skip(i as int),
                deep_schema(schema),
            ),
        decreases n - i,
    {
        let pair = &queue[i];
        let target = pair.0.as_slice();
        let source = pair.1.as_slice();
        proof {
            assert(dq[i as int] == (queue@[i as int].0@, queue@[i as int].1@));
            assert(dq.skip(i as int)[0] == dq[i as int]);
            assert(dq.skip(i as int).drop_first() =~= dq.skip(i + 1));
            lemma_deep_get(
                schema.sequences@,
                |tb: Vec<(TagKey, FieldSpec)>| deep_tag_kv(tb@, |f: FieldSpec| deep_field(f)),
                source@,
            );
            lemma_deep_get(
                schema.sets@,
                |tb: Vec<(TagKey, FieldSpec)>| deep_tag_kv(tb@, |f: FieldSpec| deep_field(f)),
                source@,
            );
            lemma_deep_get(
                schema.sequences@,
                |tb: Vec<(TagKey, FieldSpec)>| deep_tag_kv(tb@, |f: FieldSpec| deep_field(f)),
                target@,
            );
            lemma_deep_get(
                schema.sets@,
                |tb: Vec<(TagKey, FieldSpec)>| deep_tag_kv(tb@, |f: FieldSpec| deep_field(f)),
                target@,
            );
        }
        let src_opt: Option<Vec<(TagKey, FieldSpec)>> = match crate::schema::assoc_find(
            &schema.sequences,
            source,
        ) {
            Some(f) => Some(copy_fields(f)),
            None => match crate::schema::assoc_find(&schema.sets, source) {
                Some(f) => Some(copy_fields(f)),
                None => None,
            },
        };
        match src_opt {
            Some(sf) => {
                let tgt_seq: Option<Vec<(TagKey, FieldSpec)>> = match crate::schema::assoc_find(
                    &schema.sequences,
                    target,
                ) {
                    Some(tf) => Some(copy_fields(tf)),
                    None => None,
                };
                match tgt_seq {
                    Some(mut tfc) => {
                        extend_fields_exec(&mut tfc, &sf);
                        let k = vstd::slice::slice_to_vec(target);
                        proof {
                            lemma_deep_put(
                                schema.sequences@,
                                |tb: Vec<(TagKey, FieldSpec)>| deep_tag_kv(
                                    tb@,
                                    |f: FieldSpec| deep_field(f),
                                ),
                                k,
                                tfc,
                            );
                        }
                        crate::schema::assoc_insert(&mut schema.sequences, k, tfc);
                    },
                    None => {
                        let tgt_set: Option<Vec<(TagKey, FieldSpec)>> =
                            match crate::schema::assoc_find(&schema.sets, target) {
                            Some(tf) => Some(copy_fields(tf)),
                            None => None,
                        };
                        match tgt_set {
                            Some(mut tfc) => {
                                extend_fields_exec(&mut tfc, &sf);
                                let k = vstd::slice::slice_to_vec(target);
                                proof {
                                    lemma_deep_put(
                                        schema.sets@,
                                        |tb: Vec<(TagKey, FieldSpec)>| deep_tag_kv(
                                            tb@,
                                            |f: FieldSpec| deep_field(f),
                                        ),
                                        k,
                                        tfc,
                                    );
                                }
                                crate::schema::assoc_insert(&mut schema.sets, k, tfc);
                            },
                            None => {},
                        }
                    },
                }
            },
            None => {},
        }
        i = i + 1;
    }
    proof {
        assert(dq.skip(n as int) =~= Seq::<(Seq<u8>, Seq<u8>)>::empty());
    }
}


impl Asn1Schema {
    /// Compile the text of an ASN.1 module into its dispatch tables.
    /// Succeeds exactly when every pattern compiles and every explicit tag
    /// number in a CHOICE alternative or field fits in 32 bits; the tables
    /// of the result are exactly what `spec_parse` gives for the text.
    #[verifier::loop_isolation(false)]
    #[verifier::rlimit(50)]
    pub fn parse(text: &[u8]) -> (r: Result<Asn1Schema, SchemaError>)
        ensures
            match spec_parse(text@) {
                Ok(m) => r matches Ok(s) && deep_schema(&s) == m,
                Err(e) => r matches Err(e2) && e2 == e,
            },
    {
        let ok = regex_is_valid(pat_snacc_x()) && regex_is_valid(pat_comment_x())
            && regex_is_valid(pat_type_x()) && regex_is_valid(pat_alias_x()) && regex_is_valid(
            pat_choice_tagged_x(),
        ) && regex_is_valid(pat_choice_untagged_x()) && regex_is_valid(pat_field_x())
            && regex_is_valid(pat_components_x());
        if !ok {
            return Err(SchemaError::Pattern);
        }
        let no_snacc = match regex_replace_all(pat_snacc_x(), text, " ".as_bytes()) {
            Some(v) => v,
            None => {
                proof {
                    assert(false);
                }
                return Err(SchemaError::Pattern);
            },
        };
        let stripped = match regex_replace_all(
            pat_comment_x(),
            no_snacc.as_slice(),
            "".as_bytes(),
        ) {
            Some(v) => v,
            None => {
                proof {
                    assert(false);
                }
                return Err(SchemaError::Pattern);
            },
        };
        let arows = match regex_captures(pat_alias_x(), stripped.as_slice()) {
            Some(v) => v,
            None => {
                proof {
                    assert(false);
                }
                return Err(SchemaError::Pattern);
            },
        };
        let aliases_t = build_aliases(&arows);
        let trows = match regex_captures(pat_type_x(), stripped.as_slice()) {
            Some(v) => v,
            None => {
                proof {
                    assert(false);
                }
                return Err(SchemaError::Pattern);
            },
        };
        let dp = build_defs(&trows);
        let defs = dp.2;
        let mut schema = Asn1Schema {
            choices: Vec::new(),
            sequences: Vec::new(),
            sets: Vec::new(),
            seq_of_types: Vec::new(),
            set_of_types: Vec::new(),
            primitives: dp.1,
            aliases: aliases_t,
            type_outer_tag: dp.0,
        };
        let ghost m0 = deep_schema(&schema);
        proof {
            assert(deep_kv(
                schema.choices@,
                |t: Vec<(TagKey, ChoiceAlt)>| deep_tag_kv(t@, |a: ChoiceAlt| deep_alt(a)),
            ) =~= Seq::<(Seq<u8>, Seq<(TagKey, (Seq<u8>, Seq<u8>))>)>::empty());
            assert(deep_kv(
                schema.sequences@,
                |t: Vec<(TagKey, FieldSpec)>| deep_tag_kv(t@, |f: FieldSpec| deep_field(f)),
            ) =~= Seq::<(Seq<u8>, Seq<(TagKey, FieldModel)>)>::empty());
            assert(deep_kv(
                schema.sets@,
                |t: Vec<(TagKey, FieldSpec)>| deep_tag_kv(t@, |f: FieldSpec| deep_field(f)),
            ) =~= Seq::<(Seq<u8>, Seq<(TagKey, FieldModel)>)>::empty());
            assert(deep_kv(schema.seq_of_types@, |v: Vec<u8>| v@) =~= Seq::<
                (Seq<u8>, Seq<u8>),
            >::empty());
            assert(deep_kv(schema.set_of_types@, |v: Vec<u8>| v@) =~= Seq::<
                (Seq<u8>, Seq<u8>),
            >::empty());
        }
        let ghost ddefs = deep_defs(defs@);
        let mut queue: Vec<(Vec<u8>, Vec<u8>)> = Vec::new();
        let nd = defs.len();
        let mut i: usize = 0;
        proof {
            assert(ddefs.skip(0) =~= ddefs);
            assert(deep_kv(queue@, |v: Vec<u8>| v@) =~= Seq::<(Seq<u8>, Seq<u8>)>::empty());
        }
        while i < nd
            invariant
                i <= nd,
                nd == defs@.len(),
                ddefs == deep_defs(defs@),
                ddefs.len() == nd,
                fold_structs(ddefs, m0, Seq::empty()) == fold_structs(
                    ddefs.skip(i as int),
                    deep_schema(&schema),
                    deep_kv(queue@, |v: Vec<u8>| v@),
                ),
            decreases nd - i,
        {
            let d = &defs[i];
            let ghost mcur = deep_schema(&schema);
            proof {
                assert(ddefs[i as int] == deep_def(defs@[i as int]));
                assert(ddefs.skip(i as int)[0] == ddefs[i as int]);
                assert(ddefs.skip(i as int).drop_first() =~= ddefs.skip(i + 1));
            }
            let is_seq = bytes_eq(d.tkind.as_slice(), "SEQUENCE".as_bytes());
            let is_set = bytes_eq(d.tkind.as_slice(), "SET".as_bytes());
            if is_seq || is_set {
                match &d.of_type {
                    Some(elem) => {
                        let k = vstd::slice::slice_to_vec(d.tname.as_slice());
                        let v = vstd::slice::slice_to_vec(elem.as_slice());
                        if is_set {
                            proof {
                                lemma_deep_put(schema.set_of_types@, |v2: Vec<u8>| v2@, k, v);
                            }
                            crate::schema::assoc_insert(&mut schema.set_of_types, k, v);
                            proof {
                                assert(deep_schema(&schema) == SchemaModel {
                                    set_of_types: sput(mcur.set_of_types, d.tname@, elem@),
                                    ..mcur
                                });
                            }
                        } else {
                            proof {
                                lemma_deep_put(schema.seq_of_types@, |v2: Vec<u8>| v2@, k, v);
                            }
                            crate::schema::assoc_insert(&mut schema.seq_of_types, k, v);
                            proof {
                                assert(deep_schema(&schema) == SchemaModel {
                                    seq_of_types: sput(mcur.seq_of_types, d.tname@, elem@),
                                    ..mcur
                                });
                            }
                        }
                    },
                    None => {
                        let frows = match regex_captures(pat_field_x(), d.body.as_slice()) {
                            Some(v) => v,
                            None => {
                                proof {
                                    assert(false);
                                }
                                return Err(SchemaError::Pattern);
                            },
                        };
                        match build_fields(&frows, &schema) {
                            Err(e) => {
                                return Err(e);
                            },
                            Ok(fields) => {
                                let crows = match regex_captures(
                                    pat_components_x(),
                                    d.body.as_slice(),
                                ) {
                                    Some(v) => v,
                                    None => {
                                        proof {
                                            assert(false);
                                        }
                                        return Err(SchemaError::Pattern);
                                    },
                                };
                                push_components_refs(&crows, d.tname.as_slice(), &mut queue);
                                let k = vstd::slice::slice_to_vec(d.tname.as_slice());
                                let ghost dfields = deep_tag_kv(
                                    fields@,
                                    |f: FieldSpec| deep_field(f),
                                );
                                if is_set {
                                    proof {
                                        lemma_deep_put(
                                            schema.sets@,
                                            |tb: Vec<(TagKey, FieldSpec)>| deep_tag_kv(
                                                tb@,
                                                |f: FieldSpec| deep_field(f),
                                            ),
                                            k,
                                            fields,
                                        );
                                    }
                                    crate::schema::assoc_insert(&mut schema.sets, k, fields);
                                    proof {
                                        assert(deep_schema(&schema) == SchemaModel {
                                            sets: sput(mcur.sets, d.tname@, dfields),
                                            ..mcur
                                        });
                                    }
                                } else {
                                    proof {
                                        lemma_deep_put(
                                            schema.sequences@,
                                            |tb: Vec<(TagKey, FieldSpec)>| deep_tag_kv(
                                                tb@,
                                                |f: FieldSpec| deep_field(f),
                                            ),
                                            k,
                                            fields,
                                        );
                                    }
                                    crate::schema::assoc_insert(&mut schema.sequences, k, fields);
                                    proof {
                                        assert(deep_schema(&schema) == SchemaModel {
                                            sequences: sput(mcur.sequences, d.tname@, dfields),
                                            ..mcur
                                        });
                                    }
                                }
                            },
                        }
                    },
                }
            } else if bytes_eq(d.tkind.as_slice(), "CHOICE".as_bytes()) {
                let tgrows = match regex_captures(pat_choice_tagged_x(), d.body.as_slice()) {
                    Some(v) => v,
                    None => {
                        proof {
                            assert(false);
                        }
                        return Err(SchemaError::Pattern);
                    },
                };
                match build_choice_tagged(&tgrows) {
                    Err(e) => {
                        return Err(e);
                    },
                    Ok(alts) => {
                        let alts2 = if alts.len() == 0 {
                            let urows = match regex_captures(
                                pat_choice_untagged_x(),
                                d.body.as_slice(),
                            ) {
                                Some(v) => v,
                                None => {
                                    proof {
                                        assert(false);
                                    }
                                    return Err(SchemaError::Pattern);
                                },
                            };
                            build_choice_untagged(&urows)
                        } else {
                            alts
                        };
                        let k = vstd::slice::slice_to_vec(d.tname.as_slice());
                        let ghost dalts = deep_tag_kv(alts2@, |a: ChoiceAlt| deep_alt(a));
                        proof {
                            lemma_deep_put(
                                schema.choices@,
                                |tb: Vec<(TagKey, ChoiceAlt)>| deep_tag_kv(
                                    tb@,
                                    |a: ChoiceAlt| deep_alt(a),
                                ),
                                k,
                                alts2,
                            );
                        }
                        crate::schema::assoc_insert(&mut schema.choices, k, alts2);
                        proof {
                            assert(deep_schema(&schema) == SchemaModel {
                                choices: sput(mcur.choices, d.tname@, dalts),
                                ..mcur
                            });
                        }
                    },
                }
            }
            i = i + 1;
        }
        proof {
            assert(ddefs.skip(nd as int) =~= Seq::<DefModel>::empty());
        }
        apply_components(&queue, &mut schema);
        Ok(schema)
    }
}


/// Tag keys are unique within every CHOICE alternative table and every
/// SEQUENCE and SET field table of a schema.
pub open spec fn inner_tables_unique(m: SchemaModel) -> bool {
    &&& forall|i: int|
        0 <= i < m.choices.len() ==> tag_keys_unique((#[trigger] m.choices[i]).1)
    &&& forall|i: int|
        0 <= i < m.sequences.len() ==> tag_keys_unique((#[trigger] m.sequences[i]).1)
    &&& forall|i: int| 0 <= i < m.sets.len() ==> tag_keys_unique((#[trigger] m.sets[i]).1)
}

/// Unique tag keys in a table's mathematical image mean unique tag keys in
/// the table itself.
pub proof fn lemma_deep_tag_unique<V, W>(s: Seq<(TagKey, V)>, f: spec_fn(V) -> W)
    requires
        tag_keys_unique(deep_tag_kv(s, f)),
    ensures
        tag_keys_unique(s),
{
    assert forall|i: int, j: int| 0 <= i < j < s.len() implies (#[trigger] s[i]).0 != (
    #[trigger] s[j]).0 by {
        assert(deep_tag_kv(s, f)[i].0 == s[i].0);
        assert(deep_tag_kv(s, f)[j].0 == s[j].0);
    }
}

/// A binding put into a mathematical table holds the new value or one the
/// table already held.
proof fn lemma_sput_entries<V>(s: Seq<(Seq<u8>, V)>, k: Seq<u8>, v: V, p: spec_fn(V) -> bool)
    requires
        p(v),
        forall|i: int| 0 <= i < s.len() ==> p((#[trigger] s[i]).1),
    ensures
        forall|j: int| 0 <= j < sput(s, k, v).len() ==> p((#[trigger] sput(s, k, v)[j]).1),
    decreases s.len(),
{
    let t = sput(s, k, v);
    if s.len() == 0 {
        assert(t =~= seq![(k, v)]);
    } else if s[0].0 == k {
        assert(t =~= seq![(k, v)] + s.drop_first());
        assert forall|j: int| 0 <= j < t.len() implies p((#[trigger] t[j]).1) by {
            if j > 0 {
                assert(t[j] == s[j]);
            }
        }
    } else {
        assert(forall|i: int|
            0 <= i < s.drop_first().len() ==> (#[trigger] s.drop_first()[i]) == s[i + 1]);
        lemma_sput_entries(s.drop_first(), k, v, p);
        let r = sput(s.drop_first(), k, v);
        assert(t =~= seq![s[0]] + r);
        assert forall|j: int| 0 <= j < t.len() implies p((#[trigger] t[j]).1) by {
            if j > 0 {
                assert(t[j] == r[j - 1]);
            }
        }
    }
}

proof fn lemma_fold_fields_unique(
    rows: Seq<Seq<Option<Seq<u8>>>>,
    m: SchemaModel,
    acc: Seq<(TagKey, FieldModel)>,
)
    requires
        tag_keys_unique(acc),
    ensures
        fold_fields(rows, m, acc) matches Ok(fm) ==> tag_keys_unique(fm),
    decreases rows.len(),
{
    if rows.len() > 0 {
        let row = rows[0];
        if row_get(row, 1) is Some && row_get(row, 4) is Some {
            let type_spec = trim_spec(row_get(row, 4)->Some_0);
            let parts = match strip_prefix_spec(type_spec, "SEQUENCE OF ".spec_bytes()) {
                Some(rest) => (true, false, trim_spec(rest)),
                None => match strip_prefix_spec(type_spec, "SET OF ".spec_bytes()) {
                    Some(rest) => (false, true, trim_spec(rest)),
                    None => (false, false, type_spec),
                },
            };
            match row_get(row, 3) {
                Some(tstr) => match spec_parse_u32(tstr) {
                    None => {},
                    Some(n) => {
                        let key = TagKey {
                            class: spec_tag_class_from_word(row_get(row, 2)),
                            num: n,
                        };
                        let fm = FieldModel {
                            name: row_get(row, 1)->Some_0,
                            field_type: parts.2,
                            optional: row_get(row, 5) is Some,
                            is_sequence_of: parts.0,
                            is_set_of: parts.1,
                        };
                        lemma_tag_put_unique(acc, key, fm);
                        lemma_fold_fields_unique(rows.drop_first(), m, tag_assoc_put(acc, key, fm));
                    },
                },
                None => match m_tag_for_type(m, parts.2) {
                    Some(key) => {
                        let fm = FieldModel {
                            name: row_get(row, 1)->Some_0,
                            field_type: parts.2,
                            optional: row_get(row, 5) is Some,
                            is_sequence_of: parts.0,
                            is_set_of: parts.1,
                        };
                        lemma_tag_put_unique(acc, key, fm);
                        lemma_fold_fields_unique(rows.drop_first(), m, tag_assoc_put(acc, key, fm));
                    },
                    None => {
                        lemma_fold_fields_unique(rows.drop_first(), m, acc);
                    },
                },
            }
        } else {
            lemma_fold_fields_unique(rows.drop_first(), m, acc);
        }
    }
}

proof fn lemma_fold_choice_tagged_unique(
    rows: Seq<Seq<Option<Seq<u8>>>>,
    acc: Seq<(TagKey, (Seq<u8>, Seq<u8>))>,
)
    requires
        tag_keys_unique(acc),
    ensures
        fold_choice_tagged(rows, acc) matches Ok(am) ==> tag_keys_unique(am),
    decreases rows.len(),
{
    if rows.len() > 0 {
        let row = rows[0];
        if row_get(row, 1) is Some && row_get(row, 3) is Some && row_get(row, 4) is Some {
            match spec_parse_u32(row_get(row, 3)->Some_0) {
                None => {},
                Some(n) => {
                    let key = TagKey { class: spec_tag_class_from_word(row_get(row, 2)), num: n };
                    let v = (row_get(row, 1)->Some_0, row_get(row, 4)->Some_0);
                    lemma_tag_put_unique(acc, key, v);
                    lemma_fold_choice_tagged_unique(rows.drop_first(), tag_assoc_put(acc, key, v));
                },
            }
        } else {
            lemma_fold_choice_tagged_unique(rows.drop_first(), acc);
        }
    }
}

proof fn lemma_fold_choice_untagged_unique(
    rows: Seq<Seq<Option<Seq<u8>>>>,
    acc: Seq<(TagKey, (Seq<u8>, Seq<u8>))>,
    idx: nat,
)
    requires
        tag_keys_unique(acc),
    ensures
        tag_keys_unique(fold_choice_untagged(rows, acc, idx)),
    decreases rows.len(),
{
    if rows.len() > 0 {
        let row = rows[0];
        if row_get(row, 1) is Some && row_get(row, 2) is Some {
            let fname = row_get(row, 1)->Some_0;
            let ftype = row_get(row, 2)->Some_0;
            if fname == "isPdu".spec_bytes() || fname == "TRUE".spec_bytes() {
                lemma_fold_choice_untagged_unique(rows.drop_first(), acc, idx);
            } else if fname.len() > 0 && ftype.len() > 0 && idx < 255 {
                let key = TagKey { class: 3, num: (SYNTH_CHOICE_BASE + idx) as u32 };
                lemma_tag_put_unique(acc, key, (fname, ftype));
                lemma_fold_choice_untagged_unique(
                    rows.drop_first(),
                    tag_assoc_put(acc, key, (fname, ftype)),
                    idx + 1,
                );
            } else {
                lemma_fold_choice_untagged_unique(rows.drop_first(), acc, idx);
            }
        } else {
            lemma_fold_choice_untagged_unique(rows.drop_first(), acc, idx);
        }
    }
}

proof fn lemma_extend_fields_unique(tgt: Seq<(TagKey, FieldModel)>, src: Seq<(TagKey, FieldModel)>)
    requires
        tag_keys_unique(tgt),
    ensures
        tag_keys_unique(extend_fields(tgt, src)),
    decreases src.len(),
{
    if src.len() > 0 {
        lemma_tag_put_unique(tgt, src[0].0, src[0].1);
        lemma_extend_fields_unique(tag_assoc_put(tgt, src[0].0, src[0].1), src.drop_first());
    }
}

proof fn lemma_fold_structs_unique(
    defs: Seq<DefModel>,
    m: SchemaModel,
    queue: Seq<(Seq<u8>, Seq<u8>)>,
)
    requires
        inner_tables_unique(m),
    ensures
        fold_structs(defs, m, queue) matches Ok(mq) ==> inner_tables_unique(mq.0),
    decreases defs.len(),
{
    if defs.len() > 0 {
        let d = defs[0];
        if d.tkind == "SEQUENCE".spec_bytes() || d.tkind == "SET".spec_bytes() {
            let is_set = d.tkind == "SET".spec_bytes();
            match d.of_type {
                Some(elem) => {
                    let m2 = if is_set {
                        SchemaModel { set_of_types: sput(m.set_of_types, d.tname, elem), ..m }
                    } else {
                        SchemaModel { seq_of_types: sput(m.seq_of_types, d.tname, elem), ..m }
                    };
                    lemma_fold_structs_unique(defs.drop_first(), m2, queue);
                },
                None => {
                    match fold_fields(captures_of(pat_field(), d.body), m, Seq::empty()) {
                        Err(_) => {},
                        Ok(fields) => {
                            lemma_fold_fields_unique(
                                captures_of(pat_field(), d.body),
                                m,
                                Seq::empty(),
                            );
                            let queue2 = fold_components_refs(
                                captures_of(pat_components(), d.body),
                                d.tname,
                                queue,
                            );
                            if is_set {
                                lemma_sput_entries(
                                    m.sets,
                                    d.tname,
                                    fields,
                                    |t: Seq<(TagKey, FieldModel)>| tag_keys_unique(t),
                                );
                                let m2 = SchemaModel { sets: sput(m.sets, d.tname, fields), ..m };
                                lemma_fold_structs_unique(defs.drop_first(), m2, queue2);
                            } else {
                                lemma_sput_entries(
                                    m.sequences,
                                    d.tname,
                                    fields,
                                    |t: Seq<(TagKey, FieldModel)>| tag_keys_unique(t),
                                );
                                let m2 = SchemaModel {
                                    sequences: sput(m.sequences, d.tname, fields),
                                    ..m
                                };
                                lemma_fold_structs_unique(defs.drop_first(), m2, queue2);
                            }
                        },
                    }
                },
            }
        } else if d.tkind == "CHOICE".spec_bytes() {
            match fold_choice_tagged(captures_of(pat_choice_tagged(), d.body), Seq::empty()) {
                Err(_) => {},
                Ok(alts) => {
                    lemma_fold_choice_tagged_unique(
                        captures_of(pat_choice_tagged(), d.body),
                        Seq::empty(),
                    );
                    let alts2 = if alts.len() == 0 {
                        fold_choice_untagged(
                            captures_of(pat_choice_untagged(), d.body),
                            Seq::empty(),
                            0,
                        )
                    } else {
                        alts
                    };
                    if alts.len() == 0 {
                        lemma_fold_choice_untagged_unique(
                            captures_of(pat_choice_untagged(), d.body),
                            Seq::empty(),
                            0,
                        );
                    }
                    lemma_sput_entries(
                        m.choices,
                        d.tname,
                        alts2,
                        |t: Seq<(TagKey, (Seq<u8>, Seq<u8>))>| tag_keys_unique(t),
                    );
                    let m2 = SchemaModel { choices: sput(m.choices, d.tname, alts2), ..m };
                    lemma_fold_structs_unique(defs.drop_first(), m2, queue);
                },
            }
        } else {
            lemma_fold_structs_unique(defs.drop_first(), m, queue);
        }
    }
}

proof fn lemma_fold_component_queue_unique(queue: Seq<(Seq<u8>, Seq<u8>)>, m: SchemaModel)
    requires
        inner_tables_unique(m),
    ensures
        inner_tables_unique(fold_component_queue(queue, m)),
    decreases queue.len(),
{
    if queue.len() > 0 {
        let target = queue[0].0;
        let source = queue[0].1;
        let src_fields = match sget(m.sequences, source) {
            Some(f) => Some(f),
            None => sget(m.sets, source),
        };
        match src_fields {
            None => {
                lemma_fold_component_queue_unique(queue.drop_first(), m);
            },
            Some(sf) => match sget(m.sequences, target) {
                Some(tf) => {
                    lemma_sget_entry(m.sequences, target);
                    lemma_extend_fields_unique(tf, sf);
                    lemma_sput_entries(
                        m.sequences,
                        target,
                        extend_fields(tf, sf),
                        |t: Seq<(TagKey, FieldModel)>| tag_keys_unique(t),
                    );
                    let m2 = SchemaModel {
                        sequences: sput(m.sequences, target, extend_fields(tf, sf)),
                        ..m
                    };
                    lemma_fold_component_queue_unique(queue.drop_first(), m2);
                },
                None => match sget(m.sets, target) {
                    Some(tf) => {
                        lemma_sget_entry(m.sets, target);
                        lemma_extend_fields_unique(tf, sf);
                        lemma_sput_entries(
                            m.sets,
                            target,
                            extend_fields(tf, sf),
                            |t: Seq<(TagKey, FieldModel)>| tag_keys_unique(t),
                        );
                        let m2 = SchemaModel {
                            sets: sput(m.sets, target, extend_fields(tf, sf)),
                            ..m
                        };
                        lemma_fold_component_queue_unique(queue.drop_first(), m2);
                    },
                    None => {
                        lemma_fold_component_queue_unique(queue.drop_first(), m);
                    },
                },
            },
        }
    }
}

/// A found binding is one of the table's entries.
proof fn lemma_sget_entry<V>(s: Seq<(Seq<u8>, V)>, k: Seq<u8>)
    ensures
        sget(s, k) matches Some(v) ==> exists|i: int|
            0 <= i < s.len() && (#[trigger] s[i]).1 == v,
    decreases s.len(),
{
    if s.len() > 0 && s[0].0 != k {
        assert(forall|i: int|
            0 <= i < s.drop_first().len() ==> (#[trigger] s.drop_first()[i]) == s[i + 1]);
        lemma_sget_entry(s.drop_first(), k);
        match sget(s.drop_first(), k) {
            Some(v) => {
                let i0 = choose|i: int|
                    0 <= i < s.drop_first().len() && (#[trigger] s.drop_first()[i]).1 == v;
                assert(s[i0 + 1].1 == v);
            },
            None => {},
        }
    }
}

/// The compiled-schema invariant: every CHOICE alternative table and every
/// SEQUENCE and SET field table of a compiled schema holds each tag key
/// once.
pub proof fn lemma_parse_tables_unique(text: Seq<u8>)
    ensures
        spec_parse(text) matches Ok(m) ==> inner_tables_unique(m),
{
    if all_patterns_valid() {
        let no_snacc = replace_all_of(pat_snacc(), text, " ".spec_bytes());
        let stripped = replace_all_of(pat_comment(), no_snacc, "".spec_bytes());
        let aliases = fold_aliases(captures_of(pat_alias(), stripped), Seq::empty());
        let dp = fold_defs(
            captures_of(pat_type(), stripped),
            Seq::empty(),
            Seq::empty(),
            Seq::empty(),
        );
        let m0 = SchemaModel {
            primitives: dp.1,
            aliases: aliases,
            type_outer_tag: dp.0,
            ..empty_model()
        };
        lemma_fold_structs_unique(dp.2, m0, Seq::empty());
        match fold_structs(dp.2, m0, Seq::empty()) {
            Err(_) => {},
            Ok(mq) => {
                lemma_fold_component_queue_unique(mq.1, mq.0);
            },
        }
    }
}


} // verus!
