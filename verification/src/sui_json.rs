//! Validated JSON call arguments and the type-directed binary encoder.
//!
//! A raw JSON value may enter the system only through [`SuiJsonValue::new`],
//! which admits booleans, strings, unsigned 64-bit numbers and recursively
//! homogeneous arrays of those. A validated value is then resolved against a
//! declared parameter type and serialized into the ledger's canonical
//! binary form by [`SuiJsonValue::to_bcs_bytes`], and whole calls are split
//! into object arguments and encoded primitive arguments by
//! [`resolve_move_function_args`].

use crate::base_types::{
    address_from_hex_literal, spec_address_from_hex_literal, ObjectID, SuiAddress,
    MoveTypeTag, spec_is_primitive, is_primitive, copy_bytes,
};
use crate::codec;
use vstd::prelude::*;

verus! {

/// A raw JSON value. Numbers are split by whether they are representable
/// as an unsigned 64-bit integer: others (negative, fractional or too
/// large) never pass validation and their magnitude never matters, so it
/// is not recorded. A string is carried as its UTF-8 bytes. The entries of
/// a JSON object never matter either: objects are always rejected.
#[derive(Debug)]
pub enum JsonValue {
    Null,
    Bool(bool),
    Number(u64),
    NonU64Number,
    Str(Vec<u8>),
    Array(Vec<JsonValue>),
    Object,
}

/// The mathematical shape of a [`JsonValue`], with sequences in place of
/// vectors.
pub enum JsonV {
    Null,
    Bool(bool),
    Number(u64),
    NonU64Number,
    Str(Seq<u8>),
    Array(Seq<JsonV>),
    Object,
}

/// The model of one raw JSON value.
pub open spec fn json_view(v: JsonValue) -> JsonV
    decreases v,
{
    match v {
        JsonValue::Null => JsonV::Null,
        JsonValue::Bool(b) => JsonV::Bool(b),
        JsonValue::Number(n) => JsonV::Number(n),
        JsonValue::NonU64Number => JsonV::NonU64Number,
        JsonValue::Str(s) => JsonV::Str(s@),
        JsonValue::Array(a) => JsonV::Array(json_view_seq(a@)),
        JsonValue::Object => JsonV::Object,
    }
}

/// The models of a sequence of raw JSON values, element by element.
pub open spec fn json_view_seq(s: Seq<JsonValue>) -> Seq<JsonV>
    decreases s,
{
    if s.len() == 0 {
        Seq::empty()
    } else {
        seq![json_view(s[0])] + json_view_seq(s.drop_first())
    }
}

impl View for JsonValue {
    type V = JsonV;

    open spec fn view(&self) -> JsonV {
        json_view(*self)
    }
}

pub broadcast proof fn lemma_json_view_seq(s: Seq<JsonValue>)
    ensures
        (#[trigger] json_view_seq(s)).len() == s.len(),
        forall|i: int| 0 <= i < s.len() ==> json_view_seq(s)[i] == json_view(s[i]),
    decreases s,
{
    if s.len() > 0 {
        lemma_json_view_seq(s.drop_first());
        assert forall|i: int| 0 <= i < s.len() implies json_view_seq(s)[i] == json_view(s[i]) by {
            if i > 0 {
                assert(s.drop_first()[i - 1] == s[i]);
            }
        }
    }
}

/// The shape class a JSON value belongs to for the homogeneity check.
/// `Any` is the class of a level at which no element has been seen yet;
/// it matches every class.
#[derive(Clone, Copy, Debug, PartialEq, Eq, Structural)]
pub enum ValidJsonType {
    Bool,
    Number,
    Str,
    Array,
    Any,
}

/// The shape class of a value, or none for the two shapes (null and
/// object) that no level may contain.
pub open spec fn class_of(v: JsonV) -> Option<ValidJsonType> {
    match v {
        JsonV::Null => None,
        JsonV::Bool(_) => Some(ValidJsonType::Bool),
        JsonV::Number(_) => Some(ValidJsonType::Number),
        JsonV::NonU64Number => Some(ValidJsonType::Number),
        JsonV::Str(_) => Some(ValidJsonType::Str),
        JsonV::Array(_) => Some(ValidJsonType::Array),
        JsonV::Object => None,
    }
}

/// The elements a value contributes to the next level of the traversal.
pub open spec fn children_of(v: JsonV) -> Seq<JsonV> {
    match v {
        JsonV::Array(a) => a,
        _ => Seq::empty(),
    }
}

/// All children of a level's values, in order.
pub open spec fn level_children(vs: Seq<JsonV>) -> Seq<JsonV>
    decreases vs.len(),
{
    if vs.len() == 0 {
        Seq::empty()
    } else {
        children_of(vs[0]) + level_children(vs.drop_first())
    }
}

/// Whether all values of one level share one admissible shape class.
pub open spec fn level_uniform(vs: Seq<JsonV>) -> bool {
    (forall|i: int| 0 <= i < vs.len() ==> (#[trigger] class_of(vs[i])) is Some)
    && (forall|i: int, j: int|
        0 <= i < vs.len() && 0 <= j < vs.len() ==> #[trigger] class_of(vs[i])
            == #[trigger] class_of(vs[j]))
}

/// The size of a value: itself plus all values nested below it.
pub open spec fn size_of(v: JsonV) -> nat
    decreases v,
{
    match v {
        JsonV::Array(a) => 1 + size_of_seq(a),
        _ => 1,
    }
}

/// The summed sizes of a sequence of values.
pub open spec fn size_of_seq(s: Seq<JsonV>) -> nat
    decreases s,
{
    if s.len() == 0 {
        0
    } else {
        size_of(s[0]) + size_of_seq(s.drop_first())
    }
}

proof fn lemma_size_of_seq_concat(a: Seq<JsonV>, b: Seq<JsonV>)
    ensures
        size_of_seq(a + b) == size_of_seq(a) + size_of_seq(b),
    decreases a,
{
    if a.len() == 0 {
        assert(a + b =~= b);
    } else {
        lemma_size_of_seq_concat(a.drop_first(), b);
        assert((a + b).drop_first() =~= a.drop_first() + b);
        assert((a + b)[0] == a[0]);
    }
}

/// Every level's children are strictly smaller in total than the level
/// itself, as long as the level is not empty.
pub proof fn lemma_level_children_smaller(vs: Seq<JsonV>)
    ensures
        size_of_seq(level_children(vs)) + vs.len() == size_of_seq(vs),
    decreases vs.len(),
{
    if vs.len() > 0 {
        lemma_level_children_smaller(vs.drop_first());
        lemma_size_of_seq_concat(children_of(vs[0]), level_children(vs.drop_first()));
        assert(size_of_seq(children_of(vs[0])) + 1 == size_of(vs[0])) by {
            match vs[0] {
                JsonV::Array(a) => {
                    assert(children_of(vs[0]) == a);
                },
                _ => {
                    assert(children_of(vs[0]) =~= Seq::<JsonV>::empty());
                },
            }
        }
    }
}

/// Whether a traversal starting from the values of `vs` finds every level
/// uniform: this is the invariant of the breadth-first homogeneity check.
pub open spec fn levels_homogeneous(vs: Seq<JsonV>) -> bool
    decreases size_of_seq(vs),
{
    if vs.len() == 0 {
        true
    } else if !level_uniform(vs) {
        false
    } else {
        proof {
            lemma_level_children_smaller(vs);
        }
        levels_homogeneous(level_children(vs))
    }
}

/// Whether every array nested anywhere in `v` — grouped by nesting depth —
/// holds elements of one shape class only, with null and object values
/// nowhere admitted below the top.
pub open spec fn spec_is_homogenous(v: JsonV) -> bool {
    levels_homogeneous(seq![v])
}

fn class_matches(level_type: &ValidJsonType, curr: &ValidJsonType) -> (r: bool)
    ensures
        r == (*level_type == *curr),
{
    match (level_type, curr) {
        (ValidJsonType::Bool, ValidJsonType::Bool) => true,
        (ValidJsonType::Number, ValidJsonType::Number) => true,
        (ValidJsonType::Str, ValidJsonType::Str) => true,
        (ValidJsonType::Array, ValidJsonType::Array) => true,
        (ValidJsonType::Any, ValidJsonType::Any) => true,
        _ => false,
    }
}

/// Check via breadth-first traversal, one level at a time over an explicit
/// worklist. The invariant is that all values at a given level must be of
/// one shape class, or the level must be empty.
pub fn is_homogenous(val: &JsonValue) -> (r: bool)
    ensures
        r == spec_is_homogenous(val@),
{
    let mut deq: Vec<&JsonValue> = Vec::new();
    deq.push(val);
    proof {
        assert(deq@.map_values(|x: &JsonValue| x@) =~= seq![val@]);
    }
    is_homogenous_rec(deq)
}

/// One pass of the breadth-first check: decides the level held in
/// `curr_q`, then every deeper level in turn.
fn is_homogenous_rec(curr_q: Vec<&JsonValue>) -> (r: bool)
    ensures
        r == levels_homogeneous(curr_q@.map_values(|x: &JsonValue| x@)),
    decreases size_of_seq(curr_q@.map_values(|x: &JsonValue| x@)),
{
    let ghost this_level: Seq<JsonV> = curr_q@.map_values(|x: &JsonValue| x@);
    if curr_q.len() == 0 {
        return true;
    }
    // Queue for the next level.
    let mut next_q: Vec<&JsonValue> = Vec::new();
    // The class shared by everything seen so far at this level.
    let mut level_type = ValidJsonType::Any;
    let mut i: usize = 0;
    while i < curr_q.len()
        invariant
            this_level == curr_q@.map_values(|x: &JsonValue| x@),
            this_level.len() == curr_q@.len(),
            i <= curr_q@.len(),
            forall|j: int| 0 <= j < i ==> (#[trigger] class_of(this_level[j])) is Some,
            level_type == ValidJsonType::Any <==> i == 0,
            forall|j: int| 0 <= j < i ==> class_of(this_level[j]) == Some(level_type),
            next_q@.map_values(|x: &JsonValue| x@) == level_children(this_level.take(i as int)),
        decreases curr_q@.len() - i,
    {
        proof {
            assert(this_level[i as int] == curr_q@[i as int]@);
        }
        let curr = match curr_q[i] {
            JsonValue::Bool(_) => ValidJsonType::Bool,
            JsonValue::Number(_) => ValidJsonType::Number,
            JsonValue::NonU64Number => ValidJsonType::Number,
            JsonValue::Str(_) => ValidJsonType::Str,
            JsonValue::Array(w) => {
                let mut k: usize = 0;
                while k < w.len()
                    invariant
                        k <= w@.len(),
                        i < curr_q@.len(),
                        this_level == curr_q@.map_values(|x: &JsonValue| x@),
                        this_level.len() == curr_q@.len(),
                        this_level[i as int] == JsonV::Array(json_view_seq(w@)),
                        next_q@.map_values(|x: &JsonValue| x@) == level_children(
                            this_level.take(i as int),
                        ) + json_view_seq(w@.take(k as int)),
                    decreases w@.len() - k,
                {
                    let ghost prev = next_q@.map_values(|x: &JsonValue| x@);
                    next_q.push(&w[k]);
                    proof {
                        lemma_json_view_seq(w@.take(k as int));
                        lemma_json_view_seq(w@.take(k as int + 1));
                        assert(next_q@.map_values(|x: &JsonValue| x@) =~= prev.push(
                            json_view(w@[k as int]),
                        ));
                        assert(json_view_seq(w@.take(k as int + 1)) =~= json_view_seq(
                            w@.take(k as int),
                        ).push(json_view(w@[k as int])));
                        assert(next_q@.map_values(|x: &JsonValue| x@) =~= level_children(
                            this_level.take(i as int),
                        ) + json_view_seq(w@.take(k as int + 1)));
                    }
                    k += 1;
                }
                proof {
                    assert(w@.take(w@.len() as int) =~= w@);
                }
                ValidJsonType::Array
            },
            _ => {
                proof {
                    assert(class_of(this_level[i as int]) is None);
                }
                return false;
            },
        };
        proof {
            assert(class_of(this_level[i as int]) == Some(curr));
            assert(children_of(this_level[i as int]) == match this_level[i as int] {
                JsonV::Array(a) => a,
                _ => Seq::<JsonV>::empty(),
            });
            lemma_level_children_take_one_more(this_level, i as int);
        }
        if class_matches(&level_type, &ValidJsonType::Any) {
            // First value seen at this level fixes the class.
            level_type = curr;
        } else if !class_matches(&level_type, &curr) {
            // Mismatch within the level.
            proof {
                assert(class_of(this_level[0]) == Some(level_type));
                assert(class_of(this_level[i as int]) == Some(curr));
                assert(!level_uniform(this_level));
            }
            return false;
        }
        i += 1;
    }
    proof {
        assert(this_level.take(this_level.len() as int) =~= this_level);
        assert(level_uniform(this_level)) by {
            assert(forall|j: int|
                0 <= j < this_level.len() ==> class_of(#[trigger] this_level[j]) == Some(
                    level_type,
                ));
        }
        lemma_level_children_smaller(this_level);
    }
    // Decide the next level.
    is_homogenous_rec(next_q)
}

proof fn lemma_level_children_take_one_more(vs: Seq<JsonV>, i: int)
    requires
        0 <= i < vs.len(),
    ensures
        level_children(vs.take(i + 1)) == level_children(vs.take(i)) + children_of(vs[i]),
    decreases i,
{
    if i == 0 {
        assert(vs.take(0) =~= Seq::<JsonV>::empty());
        assert(vs.take(1).drop_first() =~= Seq::<JsonV>::empty());
        assert(level_children(vs.take(1)) == children_of(vs[0]) + level_children(
            Seq::<JsonV>::empty(),
        ));
        assert(children_of(vs[0]) + Seq::<JsonV>::empty() =~= children_of(vs[0]));
        assert(level_children(vs.take(0)) + children_of(vs[0]) =~= children_of(vs[0]));
    } else {
        lemma_level_children_take_one_more(vs.drop_first(), i - 1);
        assert(vs.take(i + 1).drop_first() =~= vs.drop_first().take(i));
        assert(vs.take(i).drop_first() =~= vs.drop_first().take(i - 1));
        assert(vs.take(i + 1)[0] == vs[0]);
        assert(vs.take(i)[0] == vs[0]);
        assert(vs.drop_first()[i - 1] == vs[i]);
        assert(level_children(vs.take(i + 1)) == children_of(vs[0]) + level_children(
            vs.drop_first().take(i),
        ));
        assert(level_children(vs.take(i)) == children_of(vs[0]) + level_children(
            vs.drop_first().take(i - 1),
        ));
        assert(children_of(vs[0]) + (level_children(vs.drop_first().take(i - 1)) + children_of(
            vs[i],
        )) =~= (children_of(vs[0]) + level_children(vs.drop_first().take(i - 1))) + children_of(
            vs[i],
        ));
    }
}


impl Clone for JsonValue {
    fn clone(&self) -> (r: Self)
        ensures
            r@ == self@,
        decreases *self,
    {
        match self {
            JsonValue::Null => JsonValue::Null,
            JsonValue::Bool(b) => JsonValue::Bool(*b),
            JsonValue::Number(n) => JsonValue::Number(*n),
            JsonValue::NonU64Number => JsonValue::NonU64Number,
            JsonValue::Str(s) => JsonValue::Str(copy_bytes(s.as_slice())),
            JsonValue::Array(a) => {
                let mut out: Vec<JsonValue> = Vec::new();
                let mut i: usize = 0;
                while i < a.len()
                    invariant
                        i <= a@.len(),
                        *self == JsonValue::Array(*a),
                        out@.len() == i,
                        forall|j: int| 0 <= j < i ==> (#[trigger] out@[j])@ == a@[j]@,
                    decreases a@.len() - i,
                {
                    proof {
                        assert(decreases_to!(*self => (*self)->Array_0));
                        assert((*self)->Array_0 == *a);
                        assert(decreases_to!(*a => a@[i as int]));
                    }
                    out.push(a[i].clone());
                    i += 1;
                }
                proof {
                    lemma_json_view_seq(out@);
                    lemma_json_view_seq(a@);
                    assert(json_view_seq(out@) =~= json_view_seq(a@));
                }
                JsonValue::Array(out)
            },
            JsonValue::Object => JsonValue::Object,
        }
    }
}

/// An error of the argument layer. The first two arise when a raw value
/// is validated, the last when a validated value meets a declared type it
/// cannot take; each carries the offending value, and a mismatch carries
/// the expected type beside it.
#[derive(Debug)]
pub enum SuiJsonError {
    /// The raw JSON value may not be used as a call argument at all.
    Validation(JsonValue),
    /// The value cannot be encoded against the declared parameter type.
    TypeMismatch(JsonValue, MoveTypeTag),
}

/// What the validating constructor admits: booleans and strings
/// unconditionally, numbers only when they are unsigned 64-bit, arrays
/// only when the homogeneity check passes, and nothing else.
pub open spec fn spec_json_valid(v: JsonV) -> bool {
    match v {
        JsonV::Null => false,
        JsonV::Bool(_) => true,
        JsonV::Number(_) => true,
        JsonV::NonU64Number => false,
        JsonV::Str(_) => true,
        JsonV::Array(_) => spec_is_homogenous(v),
        JsonV::Object => false,
    }
}

/// A validated JSON call argument.
#[derive(Debug)]
pub struct SuiJsonValue(JsonValue);

impl View for SuiJsonValue {
    type V = JsonV;

    closed spec fn view(&self) -> JsonV {
        self.0@
    }
}

impl Clone for SuiJsonValue {
    fn clone(&self) -> (r: Self)
        ensures
            r@ == self@,
    {
        SuiJsonValue(self.0.clone())
    }
}

impl SuiJsonValue {
    /// Admits exactly the raw values that may serve as call arguments;
    /// everything else comes back as a validation error naming the value.
    pub fn new(json_value: JsonValue) -> (r: Result<SuiJsonValue, SuiJsonError>)
        ensures
            (r is Ok) == spec_json_valid(json_value@),
            r matches Ok(v) ==> v@ == json_value@,
            r matches Err(e) ==> (e matches SuiJsonError::Validation(v) && v@ == json_value@),
    {
        let ok = match &json_value {
            // No checks needed for booleans and strings.
            JsonValue::Bool(_) => true,
            JsonValue::Str(_) => true,
            // Must be an unsigned integer no wider than 64 bits.
            JsonValue::Number(_) => true,
            JsonValue::NonU64Number => false,
            // Must be homogeneous.
            JsonValue::Array(_) => is_homogenous(&json_value),
            _ => false,
        };
        if ok {
            Ok(SuiJsonValue(json_value))
        } else {
            Err(SuiJsonError::Validation(json_value))
        }
    }

    /// The raw value this argument was validated from.
    pub fn to_json_value(&self) -> (r: JsonValue)
        ensures
            r@ == self@,
    {
        self.0.clone()
    }
}


/// The typed value an argument takes between validation and binary
/// encoding. `ObjectID` is never produced by the encoder itself; it
/// exists for callers that carry resolved object identifiers in the same
/// shape.
#[derive(Debug)]
pub enum IntermediateValue {
    Bool(bool),
    U8(u8),
    U64(u64),
    U128(u128),
    Address(SuiAddress),
    ObjectID(ObjectID),
    Vector(Vec<IntermediateValue>),
}

/// The mathematical shape of an [`IntermediateValue`].
pub enum IntermediateV {
    Bool(bool),
    U8(u8),
    U64(u64),
    U128(u128),
    Address(Seq<u8>),
    ObjectID(Seq<u8>),
    Vector(Seq<IntermediateV>),
}

/// The model of one intermediate value.
pub open spec fn iv_view(v: IntermediateValue) -> IntermediateV
    decreases v,
{
    match v {
        IntermediateValue::Bool(b) => IntermediateV::Bool(b),
        IntermediateValue::U8(n) => IntermediateV::U8(n),
        IntermediateValue::U64(n) => IntermediateV::U64(n),
        IntermediateValue::U128(n) => IntermediateV::U128(n),
        IntermediateValue::Address(a) => IntermediateV::Address(a@),
        IntermediateValue::ObjectID(id) => IntermediateV::ObjectID(id@),
        IntermediateValue::Vector(v) => IntermediateV::Vector(iv_view_seq(v@)),
    }
}

/// The models of a sequence of intermediate values.
pub open spec fn iv_view_seq(s: Seq<IntermediateValue>) -> Seq<IntermediateV>
    decreases s,
{
    if s.len() == 0 {
        Seq::empty()
    } else {
        seq![iv_view(s[0])] + iv_view_seq(s.drop_first())
    }
}

impl View for IntermediateValue {
    type V = IntermediateV;

    open spec fn view(&self) -> IntermediateV {
        iv_view(*self)
    }
}

pub broadcast proof fn lemma_iv_view_seq(s: Seq<IntermediateValue>)
    ensures
        (#[trigger] iv_view_seq(s)).len() == s.len(),
        forall|i: int| 0 <= i < s.len() ==> iv_view_seq(s)[i] == iv_view(s[i]),
    decreases s,
{
    if s.len() > 0 {
        lemma_iv_view_seq(s.drop_first());
        assert forall|i: int| 0 <= i < s.len() implies iv_view_seq(s)[i] == iv_view(s[i]) by {
            if i > 0 {
                assert(s.drop_first()[i - 1] == s[i]);
            }
        }
    }
}

/// The unsigned 128-bit value a string argument denotes: first read as a
/// decimal integer; failing that, the ASCII-trimmed, lowercased string
/// must carry the marker `0x` and its remainder is read as a hexadecimal
/// integer.
pub open spec fn spec_convert_string_to_u128(s: Seq<u8>) -> Option<u128> {
    if codec::dec_parses_u128(s) {
        Some(codec::dec_value(codec::sign_stripped(s)) as u128)
    } else {
        let t = codec::lower_seq(codec::trimmed(s));
        if !codec::has_hex_prefix(t) {
            None
        } else {
            let d = codec::strip_hex_prefixes(t);
            if codec::hex_parses_u128(d) {
                Some(codec::hex_value(codec::sign_stripped(d)) as u128)
            } else {
                None
            }
        }
    }
}

/// Reads a string argument as an unsigned 128-bit integer, decimal first,
/// then `0x`-marked hexadecimal.
pub fn convert_string_to_u128(s: &[u8]) -> (r: Option<u128>)
    ensures
        r == spec_convert_string_to_u128(s@),
{
    // Try as a plain decimal number first.
    if let Some(v) = codec::parse_u128_dec(s) {
        return Some(v);
    }
    // Otherwise only the hexadecimal marker form is supported.
    let t = codec::trim_and_lower(s);
    if !(t.len() >= 2 && t[0] == 48 && t[1] == 120) {
        return None;
    }
    let d = codec::strip_hex_prefixes_slice(t.as_slice());
    codec::parse_u128_hex(d)
}

/// The sequence of one-byte values standing for raw bytes in a byte
/// vector argument.
pub open spec fn u8s_of(b: Seq<u8>) -> Seq<IntermediateV> {
    Seq::new(b.len(), |i: int| IntermediateV::U8(b[i]))
}

/// The typed value a validated JSON argument resolves to against a
/// declared parameter type, or none where the pairing is rejected.
pub open spec fn spec_intermediate(v: JsonV, t: MoveTypeTag) -> Option<IntermediateV>
    decreases v,
{
    match (v, t) {
        (JsonV::Bool(b), MoveTypeTag::Bool) => Some(IntermediateV::Bool(b)),
        (JsonV::Number(n), MoveTypeTag::U8) => if n <= 255 {
            Some(IntermediateV::U8(n as u8))
        } else {
            None
        },
        (JsonV::Number(n), MoveTypeTag::U64) => Some(IntermediateV::U64(n)),
        (JsonV::Number(n), MoveTypeTag::U128) => Some(IntermediateV::U128(n as u128)),
        (JsonV::Str(s), MoveTypeTag::U8) => match spec_convert_string_to_u128(s) {
            Some(n) => if n <= 255 {
                Some(IntermediateV::U8(n as u8))
            } else {
                None
            },
            None => None,
        },
        (JsonV::Str(s), MoveTypeTag::U64) => match spec_convert_string_to_u128(s) {
            Some(n) => if n <= 0xffff_ffff_ffff_ffff {
                Some(IntermediateV::U64(n as u64))
            } else {
                None
            },
            None => None,
        },
        (JsonV::Str(s), MoveTypeTag::U128) => match spec_convert_string_to_u128(s) {
            Some(n) => Some(IntermediateV::U128(n)),
            None => None,
        },
        (JsonV::Str(s), MoveTypeTag::Vector(el)) => if *el is U8 {
            if codec::has_hex_prefix(s) {
                // A marked string is a hexadecimal byte vector.
                let d = codec::strip_hex_prefixes(s);
                if d.len() % 2 == 0 && codec::all_hex_digits(d) {
                    Some(IntermediateV::Vector(u8s_of(codec::hex_pairs(d))))
                } else {
                    None
                }
            } else {
                // An unmarked string is its raw bytes.
                Some(IntermediateV::Vector(u8s_of(s)))
            }
        } else {
            None
        },
        (JsonV::Array(a), MoveTypeTag::Vector(el)) => match spec_intermediate_seq(a, *el) {
            Some(ivs) => Some(IntermediateV::Vector(ivs)),
            None => None,
        },
        (JsonV::Str(s), MoveTypeTag::Address) => match spec_address_from_hex_literal(s) {
            Some(b) => Some(IntermediateV::Address(b)),
            None => None,
        },
        _ => None,
    }
}

/// Element-by-element resolution of an array argument; none as soon as
/// any element is rejected.
pub open spec fn spec_intermediate_seq(vs: Seq<JsonV>, t: MoveTypeTag) -> Option<
    Seq<IntermediateV>,
>
    decreases vs,
{
    if vs.len() == 0 {
        Some(Seq::empty())
    } else {
        match (spec_intermediate_seq(vs.drop_last(), t), spec_intermediate(vs.last(), t)) {
            (Some(done), Some(iv)) => Some(done.push(iv)),
            _ => None,
        }
    }
}

/// A rejected element rejects its whole array.
proof fn lemma_intermediate_seq_none(vs: Seq<JsonV>, t: MoveTypeTag, j: int)
    requires
        0 <= j < vs.len(),
        spec_intermediate(vs[j], t) is None,
    ensures
        spec_intermediate_seq(vs, t) is None,
    decreases vs,
{
    if j == vs.len() - 1 {
        assert(vs.last() == vs[j]);
    } else {
        lemma_intermediate_seq_none(vs.drop_last(), t, j);
    }
}

impl SuiJsonValue {
    fn to_intermediate_value(val: &JsonValue, typ: &MoveTypeTag) -> (r: Result<
        IntermediateValue,
        SuiJsonError,
    >)
        ensures
            (r is Ok) == (spec_intermediate(val@, *typ) is Some),
            r matches Ok(iv) ==> Some(iv@) == spec_intermediate(val@, *typ),
            r matches Err(e) ==> (e matches SuiJsonError::TypeMismatch(v, t) && v@ == val@ && t
                == *typ),
        decreases *val,
    {
        match (val, typ) {
            // A boolean maps only onto Bool.
            (JsonValue::Bool(b), MoveTypeTag::Bool) => Ok(IntermediateValue::Bool(*b)),
            // Unsigned numbers map onto the numeric widths that hold them.
            (JsonValue::Number(n), MoveTypeTag::U8) => {
                if *n <= 255 {
                    Ok(IntermediateValue::U8(*n as u8))
                } else {
                    Err(SuiJsonError::TypeMismatch(val.clone(), typ.clone()))
                }
            },
            (JsonValue::Number(n), MoveTypeTag::U64) => Ok(IntermediateValue::U64(*n)),
            (JsonValue::Number(n), MoveTypeTag::U128) => Ok(
                IntermediateValue::U128(*n as u128),
            ),
            // The numeric widths can also be written as strings, decimal
            // or hexadecimal.
            (JsonValue::Str(s), MoveTypeTag::U8) => match convert_string_to_u128(s.as_slice()) {
                Some(n) if n <= 255 => Ok(IntermediateValue::U8(n as u8)),
                _ => Err(SuiJsonError::TypeMismatch(val.clone(), typ.clone())),
            },
            (JsonValue::Str(s), MoveTypeTag::U64) => match convert_string_to_u128(s.as_slice()) {
                Some(n) if n <= 0xffff_ffff_ffff_ffff => Ok(IntermediateValue::U64(n as u64)),
                _ => Err(SuiJsonError::TypeMismatch(val.clone(), typ.clone())),
            },
            (JsonValue::Str(s), MoveTypeTag::U128) => match convert_string_to_u128(s.as_slice()) {
                Some(n) => Ok(IntermediateValue::U128(n)),
                None => Err(SuiJsonError::TypeMismatch(val.clone(), typ.clone())),
            },
            // A byte vector can be written as a string in two ways: with
            // the marker, pairs of hexadecimal digits; without it, the raw
            // bytes of the string itself.
            (JsonValue::Str(s), MoveTypeTag::Vector(el)) => {
                if !matches!(**el, MoveTypeTag::U8) {
                    return Err(SuiJsonError::TypeMismatch(val.clone(), typ.clone()));
                }
                if s.len() >= 2 && s[0] == 48 && s[1] == 120 {
                    let d = codec::strip_hex_prefixes_slice(s.as_slice());
                    match codec::hex_decode(d) {
                        Some(bytes) => Ok(IntermediateValue::Vector(u8_vector(bytes.as_slice()))),
                        None => Err(SuiJsonError::TypeMismatch(val.clone(), typ.clone())),
                    }
                } else {
                    Ok(IntermediateValue::Vector(u8_vector(s.as_slice())))
                }
            },
            // An array resolves element by element against the element
            // type.
            (JsonValue::Array(a), MoveTypeTag::Vector(el)) => {
                let mut out: Vec<IntermediateValue> = Vec::new();
                let mut i: usize = 0;
                let ghost avs = (*val)@->Array_0;
                proof {
                    lemma_json_view_seq(a@);
                }
                while i < a.len()
                    invariant
                        i <= a@.len(),
                        *val == JsonValue::Array(*a),
                        *typ == MoveTypeTag::Vector(*el),
                        avs == json_view_seq(a@),
                        avs.len() == a@.len(),
                        forall|j: int| 0 <= j < a@.len() ==> avs[j] == a@[j]@,
                        spec_intermediate_seq(avs.take(i as int), **el) == Some(
                            iv_view_seq(out@),
                        ),
                        out@.len() == i,
                    decreases a@.len() - i,
                {
                    proof {
                        assert(decreases_to!(*val => (*val)->Array_0));
                        assert((*val)->Array_0 == *a);
                        assert(decreases_to!(*a => a@[i as int]));
                    }
                    match Self::to_intermediate_value(&a[i], el) {
                        Ok(iv) => {
                            let ghost prev_vec = out@;
                            let ghost prev = iv_view_seq(out@);
                            out.push(iv);
                            proof {
                                lemma_iv_view_seq(out@);
                                lemma_iv_view_seq(prev_vec);
                                assert(iv_view_seq(out@) =~= prev.push(iv@));
                                assert(avs.take(i as int + 1).drop_last() =~= avs.take(i as int));
                                assert(avs.take(i as int + 1).last() == avs[i as int]);
                            }
                        },
                        Err(_) => {
                            proof {
                                lemma_intermediate_seq_none(avs, **el, i as int);
                            }
                            return Err(SuiJsonError::TypeMismatch(val.clone(), typ.clone()));
                        },
                    }
                    i += 1;
                }
                proof {
                    assert(avs.take(avs.len() as int) =~= avs);
                }
                Ok(IntermediateValue::Vector(out))
            },
            // An address is a hexadecimal literal with the marker.
            (JsonValue::Str(s), MoveTypeTag::Address) => {
                match address_from_hex_literal(s.as_slice()) {
                    Some(bytes) => Ok(IntermediateValue::Address(SuiAddress::new(bytes))),
                    None => Err(SuiJsonError::TypeMismatch(val.clone(), typ.clone())),
                }
            },
            _ => Err(SuiJsonError::TypeMismatch(val.clone(), typ.clone())),
        }
    }
}

/// Wraps each raw byte as a one-byte typed value.
fn u8_vector(bytes: &[u8]) -> (r: Vec<IntermediateValue>)
    ensures
        iv_view_seq(r@) == u8s_of(bytes@),
{
    let mut out: Vec<IntermediateValue> = Vec::new();
    let mut i: usize = 0;
    while i < bytes.len()
        invariant
            i <= bytes@.len(),
            out@.len() == i,
            forall|j: int| 0 <= j < i ==> (#[trigger] out@[j]) == IntermediateValue::U8(bytes@[j]),
        decreases bytes@.len() - i,
    {
        out.push(IntermediateValue::U8(bytes[i]));
        i += 1;
    }
    proof {
        lemma_iv_view_seq(out@);
        assert(iv_view_seq(out@) =~= u8s_of(bytes@));
    }
    out
}


/// The canonical bytes of a typed value: fixed-width little-endian
/// numerics, the raw bytes of an address, and length-prefixed
/// concatenation for vectors, exactly as the ledger serializes them.
pub open spec fn spec_serialize(iv: IntermediateV, t: MoveTypeTag) -> Option<Seq<u8>>
    decreases iv,
{
    match (iv, t) {
        (IntermediateV::Bool(b), MoveTypeTag::Bool) => Some(codec::bool_byte(b)),
        (IntermediateV::U8(n), MoveTypeTag::U8) => Some(seq![n]),
        (IntermediateV::U64(n), MoveTypeTag::U64) => Some(codec::le_bytes(n as nat, 8)),
        (IntermediateV::U128(n), MoveTypeTag::U128) => Some(codec::le_bytes(n as nat, 16)),
        (IntermediateV::Address(a), MoveTypeTag::Address) => Some(a),
        (IntermediateV::Vector(v), MoveTypeTag::Vector(el)) => if v.len() > codec::MAX_SEQUENCE_LENGTH {
            None
        } else {
            match spec_serialize_seq(v, *el) {
                Some(body) => Some(codec::uleb128(v.len() as nat) + body),
                None => None,
            }
        },
        _ => None,
    }
}

/// The concatenated canonical bytes of a vector's elements; none as soon
/// as any element is rejected.
pub open spec fn spec_serialize_seq(vs: Seq<IntermediateV>, t: MoveTypeTag) -> Option<Seq<u8>>
    decreases vs,
{
    if vs.len() == 0 {
        Some(Seq::empty())
    } else {
        match (spec_serialize_seq(vs.drop_last(), t), spec_serialize(vs.last(), t)) {
            (Some(done), Some(b)) => Some(done + b),
            _ => None,
        }
    }
}

/// A rejected element rejects its whole vector.
proof fn lemma_serialize_seq_none(vs: Seq<IntermediateV>, t: MoveTypeTag, j: int)
    requires
        0 <= j < vs.len(),
        spec_serialize(vs[j], t) is None,
    ensures
        spec_serialize_seq(vs, t) is None,
    decreases vs,
{
    if j == vs.len() - 1 {
        assert(vs.last() == vs[j]);
    } else {
        lemma_serialize_seq_none(vs.drop_last(), t, j);
    }
}

/// The canonical binary encoding of a validated JSON argument against a
/// declared parameter type: resolution to a typed value, then
/// serialization; none where either step rejects the pairing.
pub open spec fn spec_encode(v: JsonV, t: MoveTypeTag) -> Option<Seq<u8>> {
    match spec_intermediate(v, t) {
        Some(iv) => spec_serialize(iv, t),
        None => None,
    }
}

/// Serializes a typed value into its canonical bytes. The only failures
/// are a value/type mismatch and a vector beyond the serializer's length
/// bound.
fn inner_serialize(inter_val: &IntermediateValue, ty: &MoveTypeTag) -> (r: Result<Vec<u8>, ()>)
    ensures
        (r is Ok) == (spec_serialize(inter_val@, *ty) is Some),
        r matches Ok(b) ==> Some(b@) == spec_serialize(inter_val@, *ty),
    decreases *inter_val,
{
    match (inter_val, ty) {
        (IntermediateValue::Bool(b), MoveTypeTag::Bool) => Ok(codec::bcs_bool(*b)),
        (IntermediateValue::U8(n), MoveTypeTag::U8) => Ok(codec::bcs_u8(*n)),
        (IntermediateValue::U64(n), MoveTypeTag::U64) => Ok(codec::bcs_u64(*n)),
        (IntermediateValue::U128(n), MoveTypeTag::U128) => Ok(codec::bcs_u128(*n)),
        // The canonical form of a fixed-width address is its bytes in
        // order, with no length prefix.
        (IntermediateValue::Address(a), MoveTypeTag::Address) => Ok(
            copy_bytes(a.bytes.as_slice()),
        ),
        (IntermediateValue::Vector(v), MoveTypeTag::Vector(el)) => {
            let ghost ivs = iv_view_seq(v@);
            proof {
                lemma_iv_view_seq(v@);
            }
            let mut inner_ser: Vec<u8> = Vec::new();
            let arr_len = v.len();
            let mut i: usize = 0;
            while i < arr_len
                invariant
                    i <= v@.len(),
                    arr_len == v@.len(),
                    *inter_val == IntermediateValue::Vector(*v),
                    *ty == MoveTypeTag::Vector(*el),
                    ivs == iv_view_seq(v@),
                    ivs.len() == v@.len(),
                    forall|j: int| 0 <= j < v@.len() ==> ivs[j] == v@[j]@,
                    spec_serialize_seq(ivs.take(i as int), **el) == Some(inner_ser@),
                decreases v@.len() - i,
            {
                proof {
                    assert(decreases_to!(*inter_val => (*inter_val)->Vector_0));
                    assert((*inter_val)->Vector_0 == *v);
                    assert(decreases_to!(*v => v@[i as int]));
                }
                match inner_serialize(&v[i], el) {
                    Ok(mut b) => {
                        let ghost prev = inner_ser@;
                        inner_ser.append(&mut b);
                        proof {
                            assert(ivs.take(i as int + 1).drop_last() =~= ivs.take(i as int));
                            assert(ivs.take(i as int + 1).last() == ivs[i as int]);
                        }
                    },
                    Err(_) => {
                        proof {
                            lemma_serialize_seq_none(ivs, **el, i as int);
                        }
                        return Err(());
                    },
                }
                i += 1;
            }
            proof {
                assert(ivs.take(ivs.len() as int) =~= ivs);
            }
            // The element bytes are already canonical; what remains is the
            // ULEB128 length prefix. The canonical serializer itself emits
            // it when given a byte vector of the same length, so serialize
            // a placeholder vector and cut away its zero bytes.
            let mut zeros: Vec<u8> = Vec::new();
            let mut k: usize = 0;
            while k < arr_len
                invariant
                    k <= arr_len,
                    zeros@ == Seq::new(k as nat, |j: int| 0u8),
                decreases arr_len - k,
            {
                zeros.push(0);
                proof {
                    assert(zeros@ =~= Seq::new(k as nat + 1, |j: int| 0u8));
                }
                k += 1;
            }
            match codec::bcs_byte_vec(&zeros) {
                Some(mut ser_container) => {
                    proof {
                        assert(ser_container@ == codec::uleb128(arr_len as nat) + zeros@);
                        assert(ser_container@.len() >= arr_len);
                    }
                    // Delete the zeroes, keeping the prefix.
                    let prefix_len = ser_container.len() - arr_len;
                    ser_container.truncate(prefix_len);
                    ser_container.append(&mut inner_ser);
                    proof {
                        assert(ser_container@ =~= codec::uleb128(arr_len as nat)
                            + spec_serialize_seq(ivs, **el)->Some_0);
                    }
                    Ok(ser_container)
                },
                None => {
                    // The vector is too long for the canonical format.
                    Err(())
                },
            }
        },
        _ => Err(()),
    }
}

impl SuiJsonValue {
    /// Encodes this argument against the declared parameter type into the
    /// ledger's canonical binary bytes; a pairing the encoding rules
    /// reject comes back as a mismatch error naming the value and the
    /// type.
    pub fn to_bcs_bytes(&self, typ: &MoveTypeTag) -> (r: Result<Vec<u8>, SuiJsonError>)
        ensures
            (r is Ok) == (spec_encode(self@, *typ) is Some),
            r matches Ok(b) ==> Some(b@) == spec_encode(self@, *typ),
            r matches Err(e) ==> (e matches SuiJsonError::TypeMismatch(v, t) && v@ == self@ && t
                == *typ),
    {
        let intermediate_val = match Self::to_intermediate_value(&self.0, typ) {
            Ok(iv) => iv,
            Err(e) => {
                return Err(e);
            },
        };
        match inner_serialize(&intermediate_val, typ) {
            Ok(b) => Ok(b),
            Err(_) => Err(SuiJsonError::TypeMismatch(self.0.clone(), typ.clone())),
        }
    }
}


/// An error of whole-call resolution. Each variant carries the argument
/// position it arose at and what was found there.
#[derive(Debug)]
pub enum ResolveError {
    /// The argument count differs from what the signature expects once
    /// the implicit execution-context parameter is excluded.
    ArgumentCount { expected: usize, found: usize },
    /// An object-position argument is not a correctly marked hexadecimal
    /// string.
    ObjectIdFormat { index: usize, value: JsonValue },
    /// A primitive-position argument cannot be encoded against its
    /// declared type.
    TypeMismatch { index: usize, value: JsonValue, expected_type: MoveTypeTag },
}

/// The object identifier an object-position argument denotes: such an
/// argument must be a string holding a marked hexadecimal literal.
pub open spec fn spec_object_id_arg(v: JsonV) -> Option<Seq<u8>> {
    match v {
        JsonV::Str(s) => spec_address_from_hex_literal(s),
        _ => None,
    }
}

/// The position of the first primitive parameter in `params[i..end]`, or
/// `end` where there is none.
pub open spec fn first_primitive(params: Seq<MoveTypeTag>, i: int, end: int) -> int
    decreases end - i,
{
    if i >= end {
        end
    } else if spec_is_primitive(params[i]) {
        i
    } else {
        first_primitive(params, i + 1, end)
    }
}

/// The split index of a signature: object parameters run up to it,
/// primitive parameters from it on.
pub open spec fn spec_split_index(params: Seq<MoveTypeTag>, expected: int) -> int {
    first_primitive(params, 0, expected)
}

/// Every element of `args[start..end]` must be a marked hexadecimal
/// string naming an object; the first that is not fails the resolution at
/// its position.
fn resolve_object_args(args: &Vec<SuiJsonValue>, start: usize, end_exclusive: usize) -> (r:
    Result<Vec<ObjectID>, ResolveError>)
    requires
        start <= end_exclusive <= args@.len(),
    ensures
        (r is Ok) == (forall|i: int|
            start <= i < end_exclusive ==> (#[trigger] spec_object_id_arg(args@[i]@)) is Some),
        r matches Ok(ids) ==> ids@.len() == end_exclusive - start && forall|k: int|
            0 <= k < ids@.len() ==> Some((#[trigger] ids@[k])@) == spec_object_id_arg(
                args@[start + k]@,
            ),
        r matches Err(e) ==> (e matches ResolveError::ObjectIdFormat { index, value } && start
            <= index < end_exclusive && spec_object_id_arg(args@[index as int]@) is None
            && value@ == args@[index as int]@ && forall|j: int|
            start <= j < index ==> (#[trigger] spec_object_id_arg(args@[j]@)) is Some),
{
    let mut object_args_ids: Vec<ObjectID> = Vec::new();
    let mut idx = start;
    while idx < end_exclusive
        invariant
            start <= idx <= end_exclusive <= args@.len(),
            object_args_ids@.len() == idx - start,
            forall|k: int|
                0 <= k < object_args_ids@.len() ==> Some((#[trigger] object_args_ids@[k])@)
                    == spec_object_id_arg(args@[start + k]@),
            forall|j: int|
                start <= j < idx ==> (#[trigger] spec_object_id_arg(args@[j]@)) is Some,
        decreases end_exclusive - idx,
    {
        let transformed = match &args[idx].0 {
            JsonValue::Str(s) => ObjectID::from_hex_literal(s.as_slice()),
            _ => None,
        };
        match transformed {
            Some(id) => {
                object_args_ids.push(id);
            },
            None => {
                return Err(
                    ResolveError::ObjectIdFormat { index: idx, value: args[idx].0.clone() },
                );
            },
        }
        idx += 1;
    }
    Ok(object_args_ids)
}

/// Every element of `args[start..end]` must encode against its declared
/// parameter type; the first that does not fails the resolution at its
/// position.
fn check_and_serialize_pure_args(
    args: &Vec<SuiJsonValue>,
    start: usize,
    end_exclusive: usize,
    function_signature: &Vec<MoveTypeTag>,
) -> (r: Result<Vec<Vec<u8>>, ResolveError>)
    requires
        start <= end_exclusive <= args@.len(),
        end_exclusive <= function_signature@.len(),
    ensures
        (r is Ok) == (forall|i: int|
            start <= i < end_exclusive ==> (#[trigger] spec_encode(
                args@[i]@,
                function_signature@[i],
            )) is Some),
        r matches Ok(pure) ==> pure@.len() == end_exclusive - start && forall|k: int|
            0 <= k < pure@.len() ==> Some((#[trigger] pure@[k])@) == spec_encode(
                args@[start + k]@,
                function_signature@[start + k],
            ),
        r matches Err(e) ==> (e matches ResolveError::TypeMismatch { index, value, expected_type }
            && start <= index < end_exclusive && spec_encode(
            args@[index as int]@,
            function_signature@[index as int],
        ) is None && value@ == args@[index as int]@ && expected_type == function_signature@[
            index as int
        ] && forall|j: int|
            start <= j < index ==> (#[trigger] spec_encode(
                args@[j]@,
                function_signature@[j],
            )) is Some),
{
    let mut pure_args_serialized: Vec<Vec<u8>> = Vec::new();
    let mut idx = start;
    while idx < end_exclusive
        invariant
            start <= idx <= end_exclusive <= args@.len(),
            end_exclusive <= function_signature@.len(),
            pure_args_serialized@.len() == idx - start,
            forall|k: int|
                0 <= k < pure_args_serialized@.len() ==> Some(
                    (#[trigger] pure_args_serialized@[k])@,
                ) == spec_encode(args@[start + k]@, function_signature@[start + k]),
            forall|j: int|
                start <= j < idx ==> (#[trigger] spec_encode(
                    args@[j]@,
                    function_signature@[j],
                )) is Some,
        decreases end_exclusive - idx,
    {
        // The type the signature expects at this position.
        let expected_pure_arg_type = &function_signature[idx];
        match args[idx].to_bcs_bytes(expected_pure_arg_type) {
            Ok(a) => {
                pure_args_serialized.push(a);
            },
            Err(_) => {
                return Err(
                    ResolveError::TypeMismatch {
                        index: idx,
                        value: args[idx].0.clone(),
                        expected_type: function_signature[idx].clone(),
                    },
                );
            },
        }
        idx += 1;
    }
    Ok(pure_args_serialized)
}

/// Finds the position of the first primitive parameter before the
/// implicit context parameter, or `expected_len` where every explicit
/// parameter takes an object.
fn find_pure_args_start(parameters: &Vec<MoveTypeTag>, expected_len: usize) -> (r: usize)
    requires
        expected_len <= parameters@.len(),
    ensures
        r as int == spec_split_index(parameters@, expected_len as int),
        r <= expected_len,
{
    let mut i: usize = 0;
    while i < expected_len
        invariant
            i <= expected_len <= parameters@.len(),
            spec_split_index(parameters@, expected_len as int) == first_primitive(
                parameters@,
                i as int,
                expected_len as int,
            ),
        decreases expected_len - i,
    {
        if is_primitive(&parameters[i]) {
            return i;
        }
        i += 1;
    }
    expected_len
}

/// Resolves a whole call's JSON arguments against the signature's ordered
/// parameter list, whose final entry is the implicit execution-context
/// parameter and is excluded from the expected count. Object-typed
/// parameters form a prefix ending at the first primitive parameter:
/// arguments before that split must name object identifiers, arguments
/// from it on are encoded against their declared types. The outputs keep
/// the original argument order.
pub fn resolve_move_function_args(
    parameters: &Vec<MoveTypeTag>,
    combined_args_json: Vec<SuiJsonValue>,
) -> (r: Result<(Vec<ObjectID>, Vec<Vec<u8>>), ResolveError>)
    requires
        parameters@.len() >= 1,
    ensures
        ({
            let expected = parameters@.len() - 1;
            let split = spec_split_index(parameters@, expected);
            &&& (r is Ok) == (combined_args_json@.len() == expected && (forall|i: int|
                0 <= i < split ==> (#[trigger] spec_object_id_arg(
                    combined_args_json@[i]@,
                )) is Some) && (forall|i: int|
                split <= i < expected ==> (#[trigger] spec_encode(
                    combined_args_json@[i]@,
                    parameters@[i],
                )) is Some))
            &&& r matches Ok((ids, pure)) ==> {
                &&& ids@.len() == split
                &&& forall|k: int|
                    0 <= k < ids@.len() ==> Some((#[trigger] ids@[k])@) == spec_object_id_arg(
                        combined_args_json@[k]@,
                    )
                &&& pure@.len() == expected - split
                &&& forall|k: int|
                    0 <= k < pure@.len() ==> Some((#[trigger] pure@[k])@) == spec_encode(
                        combined_args_json@[split + k]@,
                        parameters@[split + k],
                    )
            }
            &&& r matches Err(e) ==> match e {
                ResolveError::ArgumentCount { expected: e2, found } => {
                    &&& combined_args_json@.len() != expected
                    &&& e2 == expected
                    &&& found == combined_args_json@.len()
                },
                ResolveError::ObjectIdFormat { index, value } => {
                    &&& combined_args_json@.len() == expected
                    &&& 0 <= index < split
                    &&& spec_object_id_arg(combined_args_json@[index as int]@) is None
                    &&& value@ == combined_args_json@[index as int]@
                    &&& forall|j: int|
                        0 <= j < index ==> (#[trigger] spec_object_id_arg(
                            combined_args_json@[j]@,
                        )) is Some
                },
                ResolveError::TypeMismatch { index, value, expected_type: t } => {
                    &&& combined_args_json@.len() == expected
                    &&& split <= index < expected
                    &&& spec_encode(combined_args_json@[index as int]@, parameters@[index as int])
                        is None
                    &&& value@ == combined_args_json@[index as int]@
                    &&& t == parameters@[index as int]
                    &&& forall|j: int|
                        0 <= j < split ==> (#[trigger] spec_object_id_arg(
                            combined_args_json@[j]@,
                        )) is Some
                    &&& forall|j: int|
                        split <= j < index ==> (#[trigger] spec_encode(
                            combined_args_json@[j]@,
                            parameters@[j],
                        )) is Some
                },
            }
        }),
{
    // The counts have to match, less one, due to the context parameter.
    let expected_len = parameters.len() - 1;
    if combined_args_json.len() != expected_len {
        return Err(
            ResolveError::ArgumentCount { expected: expected_len, found: combined_args_json.len() },
        );
    }
    // Object arguments must always precede the pure arguments, so find
    // the first primitive parameter, which marks where the pure ones
    // start.
    let pure_args_start = find_pure_args_start(parameters, expected_len);
    // Check that the object arguments are valid.
    let obj_args = match resolve_object_args(&combined_args_json, 0, pure_args_start) {
        Ok(ids) => ids,
        Err(e) => {
            return Err(e);
        },
    };
    // Check that the pure arguments are valid against their types.
    let pure_args_serialized = match check_and_serialize_pure_args(
        &combined_args_json,
        pure_args_start,
        expected_len,
        parameters,
    ) {
        Ok(pure) => pure,
        Err(e) => {
            return Err(e);
        },
    };
    Ok((obj_args, pure_args_serialized))
}


} // verus!
