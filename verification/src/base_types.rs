//! Core identifier and type-tag definitions shared by the argument encoder
//! and the layered object store.

use crate::codec;
use vstd::prelude::*;

verus! {

/// Number of bytes in an object identifier or an account address.
pub const ID_LENGTH: usize = 20;

/// Copies a byte string.
pub(crate) fn copy_bytes(v: &[u8]) -> (r: Vec<u8>)
    ensures
        r@ == v@,
{
    let mut r: Vec<u8> = Vec::new();
    let mut i: usize = 0;
    while i < v.len()
        invariant
            i <= v@.len(),
            r@ == v@.take(i as int),
        decreases v@.len() - i,
    {
        r.push(v[i]);
        proof {
            assert(v@.take(i as int + 1) =~= v@.take(i as int).push(v@[i as int]));
        }
        i += 1;
    }
    proof {
        assert(v@.take(v@.len() as int) =~= v@);
    }
    r
}

/// Compares two byte strings for equality.
pub(crate) fn bytes_equal(a: &[u8], b: &[u8]) -> (r: bool)
    ensures
        r == (a@ == b@),
{
    if a.len() != b.len() {
        proof {
            assert(a@ != b@);
        }
        return false;
    }
    let mut i: usize = 0;
    while i < a.len()
        invariant
            i <= a@.len(),
            a@.len() == b@.len(),
            forall|j: int| 0 <= j < i ==> a@[j] == b@[j],
        decreases a@.len() - i,
    {
        if a[i] != b[i] {
            proof {
                assert(a@[i as int] != b@[i as int]);
            }
            return false;
        }
        i += 1;
    }
    proof {
        assert(a@ =~= b@);
    }
    true
}

/// The fixed-width identifier of a stored object.
#[derive(Debug)]
pub struct ObjectID {
    pub bytes: Vec<u8>,
}

impl View for ObjectID {
    type V = Seq<u8>;

    open spec fn view(&self) -> Seq<u8> {
        self.bytes@
    }
}

impl Clone for ObjectID {
    fn clone(&self) -> (r: Self)
        ensures
            r@ == self@,
    {
        ObjectID { bytes: copy_bytes(self.bytes.as_slice()) }
    }
}

impl ObjectID {
    /// Whether the identifier has its fixed width.
    pub open spec fn is_valid(self) -> bool {
        self@.len() == ID_LENGTH
    }

    pub fn new(bytes: Vec<u8>) -> (r: Self)
        ensures
            r@ == bytes@,
    {
        ObjectID { bytes }
    }

    pub fn eq_id(&self, other: &ObjectID) -> (r: bool)
        ensures
            r == (self@ == other@),
    {
        bytes_equal(self.bytes.as_slice(), other.bytes.as_slice())
    }

    /// Parses an object identifier from a hexadecimal literal, as
    /// [`address_from_hex_literal`] does for addresses.
    pub fn from_hex_literal(s: &[u8]) -> (r: Option<ObjectID>)
        ensures
            (r is Some) == (spec_address_from_hex_literal(s@) is Some),
            r matches Some(id) ==> Some(id@) == spec_address_from_hex_literal(s@),
            r matches Some(id) ==> id.is_valid(),
    {
        match address_from_hex_literal(s) {
            Some(bytes) => Some(ObjectID { bytes }),
            None => None,
        }
    }
}

/// A single account address, the owner form of most objects.
#[derive(Debug)]
pub struct SuiAddress {
    pub bytes: Vec<u8>,
}

impl View for SuiAddress {
    type V = Seq<u8>;

    open spec fn view(&self) -> Seq<u8> {
        self.bytes@
    }
}

impl Clone for SuiAddress {
    fn clone(&self) -> (r: Self)
        ensures
            r@ == self@,
    {
        SuiAddress { bytes: copy_bytes(self.bytes.as_slice()) }
    }
}

impl SuiAddress {
    /// Whether the address has its fixed width.
    pub open spec fn is_valid(self) -> bool {
        self@.len() == ID_LENGTH
    }

    pub fn new(bytes: Vec<u8>) -> (r: Self)
        ensures
            r@ == bytes@,
    {
        SuiAddress { bytes }
    }

    pub fn eq_address(&self, other: &SuiAddress) -> (r: bool)
        ensures
            r == (self@ == other@),
    {
        bytes_equal(self.bytes.as_slice(), other.bytes.as_slice())
    }
}

/// The address bytes denoted by a hexadecimal literal: after ASCII
/// trimming and lowercasing, the string must carry the marker `0x`; the
/// digits that follow (at most 40 of them, the empty string allowed) are
/// left-padded with zeros to the fixed width and read as digit pairs.
pub open spec fn spec_address_from_hex_literal(s: Seq<u8>) -> Option<Seq<u8>> {
    let t = codec::lower_seq(codec::trimmed(s));
    if !codec::has_hex_prefix(t) {
        None
    } else {
        let d = codec::strip_hex_prefixes(t);
        if d.len() <= 40 && codec::all_hex_digits(d) {
            Some(codec::hex_pairs(Seq::new((40 - d.len()) as nat, |i: int| 48u8) + d))
        } else {
            None
        }
    }
}

/// Decodes a `0x`-marked hexadecimal literal into fixed-width address
/// bytes, left-padding short digit strings with zeros.
pub fn address_from_hex_literal(s: &[u8]) -> (r: Option<Vec<u8>>)
    ensures
        (r is Some) == (spec_address_from_hex_literal(s@) is Some),
        r matches Some(b) ==> Some(b@) == spec_address_from_hex_literal(s@),
        r matches Some(b) ==> b@.len() == 20,
{
    let t = codec::trim_and_lower(s);
    if !(t.len() >= 2 && t[0] == 48 && t[1] == 120) {
        return None;
    }
    let d = codec::strip_hex_prefixes_slice(t.as_slice());
    if d.len() > 40 {
        return None;
    }
    let mut padded: Vec<u8> = Vec::new();
    let pad = 40 - d.len();
    let mut i: usize = 0;
    while i < pad
        invariant
            i <= pad,
            padded@ == Seq::new(i as nat, |j: int| 48u8),
        decreases pad - i,
    {
        padded.push(48);
        proof {
            assert(padded@ =~= Seq::new(i as nat + 1, |j: int| 48u8));
        }
        i += 1;
    }
    let mut k: usize = 0;
    while k < d.len()
        invariant
            k <= d@.len(),
            padded@ == Seq::new(pad as nat, |j: int| 48u8) + d@.take(k as int),
        decreases d@.len() - k,
    {
        padded.push(d[k]);
        proof {
            assert(padded@ =~= Seq::new(pad as nat, |j: int| 48u8) + d@.take(k as int + 1));
        }
        k += 1;
    }
    proof {
        assert(d@.take(d@.len() as int) =~= d@);
    }
    match codec::hex_decode(padded.as_slice()) {
        Some(bytes) => {
            proof {
                let full = Seq::new((40 - d@.len()) as nat, |i: int| 48u8) + d@;
                assert(padded@ =~= full);
                assert forall|i: int| 0 <= i < d@.len() implies codec::is_hex_digit(#[trigger] d@[i]) by {
                    assert(full[pad + i] == d@[i]);
                    assert(codec::is_hex_digit(full[pad + i]));
                }
            }
            Some(bytes)
        },
        None => {
            proof {
                let full = Seq::new((40 - d@.len()) as nat, |i: int| 48u8) + d@;
                assert(padded@ =~= full);
                if codec::all_hex_digits(d@) {
                    assert forall|i: int| 0 <= i < full.len() implies codec::is_hex_digit(
                        #[trigger] full[i],
                    ) by {
                        if i >= pad {
                            assert(full[i] == d@[i - pad]);
                        }
                    }
                    assert(full.len() % 2 == 0);
                }
            }
            None
        },
    }
}

/// A declared on-chain parameter type. `Struct` stands for any
/// object (non-primitive) type; its internals never matter to the
/// argument encoder, which only routes such parameters to the
/// object-argument prefix of a call.
#[derive(Debug)]
pub enum MoveTypeTag {
    Bool,
    U8,
    U64,
    U128,
    Address,
    Vector(Box<MoveTypeTag>),
    Struct,
}

impl Clone for MoveTypeTag {
    fn clone(&self) -> (r: Self)
        ensures
            r == *self,
        decreases *self,
    {
        match self {
            MoveTypeTag::Bool => MoveTypeTag::Bool,
            MoveTypeTag::U8 => MoveTypeTag::U8,
            MoveTypeTag::U64 => MoveTypeTag::U64,
            MoveTypeTag::U128 => MoveTypeTag::U128,
            MoveTypeTag::Address => MoveTypeTag::Address,
            MoveTypeTag::Vector(inner) => MoveTypeTag::Vector(Box::new((**inner).clone())),
            MoveTypeTag::Struct => MoveTypeTag::Struct,
        }
    }
}

/// Whether a parameter type is primitive: primitive parameters are
/// serialized inline into the call payload, while non-primitive
/// (object) parameters are passed as object references.
pub open spec fn spec_is_primitive(t: MoveTypeTag) -> bool
    decreases t,
{
    match t {
        MoveTypeTag::Bool => true,
        MoveTypeTag::U8 => true,
        MoveTypeTag::U64 => true,
        MoveTypeTag::U128 => true,
        MoveTypeTag::Address => true,
        MoveTypeTag::Vector(inner) => spec_is_primitive(*inner),
        MoveTypeTag::Struct => false,
    }
}

/// A vector type is primitive exactly when its element type is.
pub fn is_primitive(t: &MoveTypeTag) -> (r: bool)
    ensures
        r == spec_is_primitive(*t),
    decreases *t,
{
    match t {
        MoveTypeTag::Bool => true,
        MoveTypeTag::U8 => true,
        MoveTypeTag::U64 => true,
        MoveTypeTag::U128 => true,
        MoveTypeTag::Address => true,
        MoveTypeTag::Vector(inner) => is_primitive(inner),
        MoveTypeTag::Struct => false,
    }
}

} // verus!
