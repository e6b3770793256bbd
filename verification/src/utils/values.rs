use crate::errors::LatticeError;
use vstd::prelude::*;
use vstd::std_specs::cmp::PartialEqSpecImpl;
use vstd::string::to_string_from_display_ensures;
use vstd::utf8::encode_utf8;

verus! {

/// The type tag of an unsigned value, in the high byte of its hash.
pub const PRIMITIVE_UINT: u64 = 0x0100_0000_0000_0000;

/// The type tag of a text value, in the high byte of its hash.
pub const PRIMITIVE_TEXT: u64 = 0x0200_0000_0000_0000;

/// The 56 low bits of a hash, which hold the value's fingerprint.
pub const FINGERPRINT_MASK: u64 = 0x00FF_FFFF_FFFF_FFFF;

/// The 64-bit rapidhash (version 3, default secrets) of a byte string.
pub uninterp spec fn rapidhash_v3_of(data: Seq<u8>) -> u64;

/// `rapidhash::v3::rapidhash_v3`: a pure function of the bytes, with a fixed
/// seed and fixed secrets, so that equal byte strings hash alike everywhere.
#[verifier::external_body]
fn rapidhash_bytes(data: &[u8]) -> (h: u64)
    ensures
        h == rapidhash_v3_of(data@),
{
    rapidhash::v3::rapidhash_v3(data)
}

/// Value representation when stored inside the Graph.
#[derive(Debug)]
pub enum Primitive {
    UInt(u64),
    Text(String),
}

/// What a primitive holds: an unsigned number, or a text by its characters.
pub enum Scalar {
    UInt(u64),
    Text(Seq<char>),
}

impl View for Primitive {
    type V = Scalar;

    open spec fn view(&self) -> Scalar {
        match self {
            Primitive::UInt(n) => Scalar::UInt(*n),
            Primitive::Text(t) => Scalar::Text(t@),
        }
    }
}

/// The hash of an unsigned value: its 56 low bits under the tag of numbers.
pub open spec fn tagged_number(n: u64) -> u64 {
    (n & FINGERPRINT_MASK) | PRIMITIVE_UINT
}

/// The hash of a text with the digest `digest`: the 56 low bits of the
/// digest under the tag of texts.
pub open spec fn tagged_digest(digest: u64) -> u64 {
    (digest & FINGERPRINT_MASK) | PRIMITIVE_TEXT
}

/// Puts the digest of a text under the tag of texts.
pub fn tag_digest(digest: u64) -> (h: u64)
    ensures
        h == tagged_digest(digest),
        h >> 56 == 2,
        h & FINGERPRINT_MASK == digest & FINGERPRINT_MASK,
{
    let h = (digest & FINGERPRINT_MASK) | PRIMITIVE_TEXT;
    assert(((digest & 0x00FF_FFFF_FFFF_FFFFu64) | 0x0200_0000_0000_0000u64) >> 56 == 2)
        by (bit_vector);
    assert(((digest & 0x00FF_FFFF_FFFF_FFFFu64) | 0x0200_0000_0000_0000u64)
        & 0x00FF_FFFF_FFFF_FFFFu64 == digest & 0x00FF_FFFF_FFFF_FFFFu64) by (bit_vector);
    h
}

/// Puts an unsigned value under the tag of numbers.
pub fn tag_number(n: u64) -> (h: u64)
    ensures
        h == tagged_number(n),
        h >> 56 == 1,
        n <= FINGERPRINT_MASK ==> h == n + PRIMITIVE_UINT,
{
    let h = (n & FINGERPRINT_MASK) | PRIMITIVE_UINT;
    assert(((n & 0x00FF_FFFF_FFFF_FFFFu64) | 0x0100_0000_0000_0000u64) >> 56 == 1) by (bit_vector);
    assert(n <= 0x00FF_FFFF_FFFF_FFFFu64 ==> (n & 0x00FF_FFFF_FFFF_FFFFu64)
        | 0x0100_0000_0000_0000u64 == n + 0x0100_0000_0000_0000u64) by (bit_vector);
    h
}

impl Scalar {
    /// The value can be stored: an unsigned value fits in 56 bits.
    pub open spec fn storable(self) -> bool {
        match self {
            Scalar::UInt(n) => n <= FINGERPRINT_MASK,
            Scalar::Text(_) => true,
        }
    }

    /// The key under which the indexes file the value: the type tag in the
    /// high byte, the value's fingerprint in the other 56 bits.
    pub open spec fn fingerprint(self) -> u64 {
        match self {
            Scalar::UInt(n) => tagged_number(n),
            Scalar::Text(t) => tagged_digest(rapidhash_v3_of(encode_utf8(t))),
        }
    }

    /// The hash of a storable unsigned value is the value itself under its
    /// tag, so that two such values with one hash are one value; and no
    /// unsigned value shares a hash with a text.
    pub proof fn lemma_fingerprint_exact(a: Scalar, b: Scalar)
        ensures
            a matches Scalar::UInt(n) ==> (a.storable() ==> a.fingerprint() == n + PRIMITIVE_UINT),
            a is UInt && b is UInt && a.storable() && b.storable() && a.fingerprint()
                == b.fingerprint() ==> a == b,
            a is UInt && b is Text ==> a.fingerprint() != b.fingerprint(),
    {
        match (a, b) {
            (Scalar::UInt(n), Scalar::UInt(m)) => {
                assert(n <= 0x00FF_FFFF_FFFF_FFFFu64 ==> (n & 0x00FF_FFFF_FFFF_FFFFu64)
                    | 0x0100_0000_0000_0000u64 == n + 0x0100_0000_0000_0000u64) by (bit_vector);
                assert(m <= 0x00FF_FFFF_FFFF_FFFFu64 ==> (m & 0x00FF_FFFF_FFFF_FFFFu64)
                    | 0x0100_0000_0000_0000u64 == m + 0x0100_0000_0000_0000u64) by (bit_vector);
            },
            (Scalar::UInt(n), Scalar::Text(t)) => {
                let r = rapidhash_v3_of(encode_utf8(t));
                assert(n <= 0x00FF_FFFF_FFFF_FFFFu64 ==> (n & 0x00FF_FFFF_FFFF_FFFFu64)
                    | 0x0100_0000_0000_0000u64 == n + 0x0100_0000_0000_0000u64) by (bit_vector);
                assert((n & 0x00FF_FFFF_FFFF_FFFFu64) | 0x0100_0000_0000_0000u64 != (r
                    & 0x00FF_FFFF_FFFF_FFFFu64) | 0x0200_0000_0000_0000u64) by (bit_vector);
            },
            (Scalar::Text(t), _) => {
                let r = rapidhash_v3_of(encode_utf8(t));
                assert((r & 0x00FF_FFFF_FFFF_FFFFu64) | 0x0200_0000_0000_0000u64
                    >= 0x0200_0000_0000_0000u64) by (bit_vector);
            },
        }
    }
}

impl Primitive {
    /// Verify the value can be used as a Value for the graph.
    /// * An unsigned value of more than 56 bits is refused, with the value
    ///   in decimal as the message.
    pub fn verify(&self) -> (r: Result<(), LatticeError>)
        ensures
            r is Ok <==> self@.storable(),
            r matches Err(e) ==> (e matches LatticeError::NumberTooBig(s) && (self matches Primitive::UInt(
                n,
            ) && to_string_from_display_ensures::<u64>(&n, s))),
    {
        match self {
            Primitive::UInt(n) => {
                assert((*n & 0xFF00_0000_0000_0000u64) != 0 <==> *n > 0x00FF_FFFF_FFFF_FFFFu64)
                    by (bit_vector);
                if (*n & 0xFF00_0000_0000_0000u64) != 0 {
                    return Err(LatticeError::NumberTooBig(n.to_string()));
                }
            },
            Primitive::Text(_) => {},
        }
        Ok(())
    }

    /// Hashes the value.
    /// * Value lookups are stored as hashes inside the database.
    pub fn hash(&self) -> (h: u64)
        ensures
            h == self@.fingerprint(),
    {
        match self {
            Primitive::UInt(n) => tag_number(*n),
            Primitive::Text(t) => tag_digest(rapidhash_bytes(t.as_str().as_bytes())),
        }
    }
}

impl Clone for Primitive {
    fn clone(&self) -> (r: Self)
        ensures
            r == *self,
            r@ == self@,
    {
        match self {
            Primitive::UInt(n) => Primitive::UInt(*n),
            Primitive::Text(t) => Primitive::Text(t.clone()),
        }
    }
}

impl PartialEq for Primitive {
    fn eq(&self, other: &Primitive) -> (r: bool) {
        match (self, other) {
            (Primitive::UInt(a), Primitive::UInt(b)) => *a == *b,
            (Primitive::Text(s), Primitive::Text(t)) => *s == *t,
            _ => false,
        }
    }
}

impl PartialEqSpecImpl for Primitive {
    open spec fn obeys_eq_spec() -> bool {
        true
    }

    open spec fn eq_spec(&self, other: &Primitive) -> bool {
        self@ == other@
    }
}

/// Allows for storage inside the Graph.
pub trait Value: Sized {
    /// What the value holds when it is stored.
    spec fn scalar(self) -> Scalar;

    fn to_primitive(self) -> (p: Primitive)
        ensures
            p@ == self.scalar(),
    ;
}

impl Value for u64 {
    open spec fn scalar(self) -> Scalar {
        Scalar::UInt(self)
    }

    fn to_primitive(self) -> (p: Primitive) {
        Primitive::UInt(self)
    }
}

impl Value for u32 {
    open spec fn scalar(self) -> Scalar {
        Scalar::UInt(self as u64)
    }

    fn to_primitive(self) -> (p: Primitive) {
        Primitive::UInt(self as u64)
    }
}

impl Value for u16 {
    open spec fn scalar(self) -> Scalar {
        Scalar::UInt(self as u64)
    }

    fn to_primitive(self) -> (p: Primitive) {
        Primitive::UInt(self as u64)
    }
}

impl Value for u8 {
    open spec fn scalar(self) -> Scalar {
        Scalar::UInt(self as u64)
    }

    fn to_primitive(self) -> (p: Primitive) {
        Primitive::UInt(self as u64)
    }
}

impl Value for &str {
    open spec fn scalar(self) -> Scalar {
        Scalar::Text(self@)
    }

    fn to_primitive(self) -> (p: Primitive) {
        Primitive::Text(self.to_string())
    }
}

} // verus!
