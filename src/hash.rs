use vstd::prelude::*;

verus! {

broadcast use vstd::array::group_array_axioms;

/// Name for the SHA-256 digest of a byte string.
pub uninterp spec fn sha256_of(data: Seq<u8>) -> Seq<u8>;

/// Relies on `ring::digest::digest` with `SHA256`: its 32 output bytes depend on
/// the input bytes alone. It panics only on a message of 2^64 bits or more.
#[verifier::external_body]
pub(crate) fn sha256(data: &[u8]) -> (r: [u8; 32])
    requires
        data@.len() < 0x2000_0000_0000_0000,
    ensures
        r@ == sha256_of(data@),
{
    let d = ring::digest::digest(&ring::digest::SHA256, data);
    let mut out = [0u8; 32];
    out.copy_from_slice(d.as_ref());
    out
}

/// Big-endian lexicographic order on equal-length byte strings, which is
/// the order of the unsigned integers they encode.
pub open spec fn bytes_le(a: Seq<u8>, b: Seq<u8>) -> bool {
    a == b || exists|i: int|
        0 <= i < a.len() && i < b.len() && a[i] < b[i] && forall|j: int| 0 <= j < i ==> a[j] == b[j]
}

/// A 256-bit hash, stored big-endian.
#[derive(Clone, Copy, Debug, Eq)]
pub struct H256 {
    pub bytes: [u8; 32],
}

/// A 160-bit account address.
#[derive(Clone, Copy, Debug, Eq)]
pub struct H160 {
    pub bytes: [u8; 20],
}

impl View for H256 {
    type V = Seq<u8>;

    open spec fn view(&self) -> Seq<u8> {
        self.bytes@
    }
}

impl View for H160 {
    type V = Seq<u8>;

    open spec fn view(&self) -> Seq<u8> {
        self.bytes@
    }
}

/// Two hashes with the same bytes are the same hash.
pub proof fn lemma_h256_view_injective(a: H256, b: H256)
    ensures
        a@ == b@ <==> a == b,
{
    if a@ == b@ {
        assert(a.bytes =~= b.bytes);
    }
}

/// Two addresses with the same bytes are the same address.
pub proof fn lemma_h160_view_injective(a: H160, b: H160)
    ensures
        a@ == b@ <==> a == b,
{
    if a@ == b@ {
        assert(a.bytes =~= b.bytes);
    }
}

impl H256 {
    pub fn from_bytes(bytes: [u8; 32]) -> (r: H256)
        ensures
            r@ == bytes@,
    {
        H256 { bytes }
    }

    /// The all-zero hash.
    pub fn zero() -> (r: H256)
        ensures
            forall|i: int| 0 <= i < 32 ==> r@[i] == 0,
    {
        H256 { bytes: [0u8; 32] }
    }

    /// Byte-wise equality.
    pub fn equals(&self, other: &H256) -> (r: bool)
        ensures
            r == (*self == *other),
    {
        let mut i: usize = 0;
        while i < 32
            invariant
                i <= 32,
                forall|j: int| 0 <= j < i ==> self.bytes@[j] == other.bytes@[j],
            decreases 32 - i,
        {
            if self.bytes[i] != other.bytes[i] {
                proof {
                    lemma_h256_view_injective(*self, *other);
                }
                return false;
            }
            i = i + 1;
        }
        proof {
            assert(self@ =~= other@);
            lemma_h256_view_injective(*self, *other);
        }
        true
    }

    /// `self <= other` as 256-bit big-endian unsigned integers.
    pub fn le(&self, other: &H256) -> (r: bool)
        ensures
            r == bytes_le(self@, other@),
    {
        let mut i: usize = 0;
        while i < 32
            invariant
                i <= 32,
                forall|j: int| 0 <= j < i ==> self.bytes@[j] == other.bytes@[j],
            decreases 32 - i,
        {
            if self.bytes[i] != other.bytes[i] {
                if self.bytes[i] < other.bytes[i] {
                    assert(0 <= i < self@.len() && i < other@.len() && self@[i as int] < other@[i as int]
                        && forall|j: int| 0 <= j < i ==> self@[j] == other@[j]);
                    return true;
                } else {
                    assert(self@ != other@ ==> !exists|k: int|
                        0 <= k < self@.len() && k < other@.len() && self@[k] < other@[k]
                            && forall|j: int| 0 <= j < k ==> self@[j] == other@[j]) by {
                        if exists|k: int|
                            0 <= k < self@.len() && k < other@.len() && self@[k] < other@[k]
                                && forall|j: int| 0 <= j < k ==> self@[j] == other@[j] {
                            let k = choose|k: int|
                                0 <= k < self@.len() && k < other@.len() && self@[k] < other@[k]
                                    && forall|j: int| 0 <= j < k ==> self@[j] == other@[j];
                            if k < i {
                                assert(self@[k] == other@[k]);
                            } else if k > i {
                                assert(self@[i as int] == other@[i as int]);
                            }
                        }
                    }
                    assert(self@[i as int] != other@[i as int]);
                    return false;
                }
            }
            i = i + 1;
        }
        assert(self@ =~= other@);
        true
    }
}

impl PartialEq for H256 {
    fn eq(&self, other: &H256) -> (r: bool) {
        self.equals(other)
    }
}

impl vstd::std_specs::cmp::PartialEqSpecImpl for H256 {
    open spec fn obeys_eq_spec() -> bool {
        true
    }

    open spec fn eq_spec(&self, other: &H256) -> bool {
        *self == *other
    }
}

impl PartialEq for H160 {
    fn eq(&self, other: &H160) -> (r: bool) {
        self.equals(other)
    }
}

impl vstd::std_specs::cmp::PartialEqSpecImpl for H160 {
    open spec fn obeys_eq_spec() -> bool {
        true
    }

    open spec fn eq_spec(&self, other: &H160) -> bool {
        *self == *other
    }
}

impl H160 {
    pub fn from_bytes(bytes: [u8; 20]) -> (r: H160)
        ensures
            r@ == bytes@,
    {
        H160 { bytes }
    }

    /// Byte-wise equality.
    pub fn equals(&self, other: &H160) -> (r: bool)
        ensures
            r == (*self == *other),
    {
        let mut i: usize = 0;
        while i < 20
            invariant
                i <= 20,
                forall|j: int| 0 <= j < i ==> self.bytes@[j] == other.bytes@[j],
            decreases 20 - i,
        {
            if self.bytes[i] != other.bytes[i] {
                proof {
                    lemma_h160_view_injective(*self, *other);
                }
                return false;
            }
            i = i + 1;
        }
        proof {
            assert(self@ =~= other@);
            lemma_h160_view_injective(*self, *other);
        }
        true
    }
}

} // verus!
