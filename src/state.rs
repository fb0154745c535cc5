use vstd::prelude::*;
use crate::hash::{sha256, sha256_of, H160};
use ring::signature::KeyPair;

verus! {

/// Name for the Ed25519 public key that a 32-byte seed derives.
pub uninterp spec fn ed25519_public_of(seed: Seq<u8>) -> Seq<u8>;

/// Relies on `ring::signature::Ed25519KeyPair::from_seed_unchecked` and
/// `KeyPair::public_key`: the key pair, and so its public key, depends on the
/// seed alone, and is 32 bytes long. A 32-byte seed is never rejected.
#[verifier::external_body]
fn ed25519_public_key(seed: &[u8; 32]) -> (r: Vec<u8>)
    ensures
        r@ == ed25519_public_of(seed@),
        r@.len() == 32,
{
    match ring::signature::Ed25519KeyPair::from_seed_unchecked(seed) {
        Ok(pair) => pair.public_key().as_ref().to_vec(),
        Err(_) => Vec::new(),
    }
}

/// The address of a public key: the last 20 bytes of its SHA-256 digest.
pub open spec fn address_of(pub_key: Seq<u8>) -> Seq<u8> {
    sha256_of(pub_key).subrange(12, 32)
}

/// The seed of the `i`-th deterministic key pair: 32 bytes equal to `i`.
pub open spec fn seed_of(i: u8) -> Seq<u8> {
    Seq::new(32, |k: int| i)
}

/// Address of the `i`-th deterministic key pair.
pub open spec fn deterministic_address(i: u8) -> Seq<u8> {
    address_of(ed25519_public_of(seed_of(i)))
}

impl H160 {
    /// The address of a public key.
    pub fn from_pubkey(pub_key: &[u8]) -> (r: H160)
        requires
            pub_key@.len() < 0x2000_0000_0000_0000,
        ensures
            r@ == address_of(pub_key@),
    {
        let d = sha256(pub_key);
        let mut bytes = [0u8; 20];
        let mut i: usize = 0;
        while i < 20
            invariant
                i <= 20,
                d@ == sha256_of(pub_key@),
                forall|k: int| 0 <= k < i ==> bytes@[k] == d@[12 + k],
            decreases 20 - i,
        {
            bytes.set(i, d[12 + i]);
            i = i + 1;
        }
        let r = H160 { bytes };
        assert(r@ =~= address_of(pub_key@));
        r
    }
}

/// Address of the `i`-th deterministic key pair.
pub fn deterministic_address_of(i: u8) -> (r: H160)
    ensures
        r@ == deterministic_address(i),
{
    let seed = [i; 32];
    assert(seed@ =~= seed_of(i));
    let pk = ed25519_public_key(&seed);
    H160::from_pubkey(pk.as_slice())
}

/// Account state: the nonce and balance of each address.
#[derive(Clone, Debug)]
pub struct State {
    entries: Vec<(H160, (u32, u64))>,
}

impl State {
    /// The accounts, one entry per address.
    pub closed spec fn spec_entries(&self) -> Seq<(H160, (u32, u64))> {
        self.entries@
    }

    pub closed spec fn wf(&self) -> bool {
        forall|i: int, j: int|
            0 <= i < self.entries@.len() && 0 <= j < self.entries@.len() && i != j ==> self.entries@[i].0
                != self.entries@[j].0
    }

    /// The nonce and balance recorded for `a`, if any.
    pub open spec fn lookup(&self, a: H160) -> Option<(u32, u64)> {
        if exists|i: int| 0 <= i < self.spec_entries().len() && (#[trigger] self.spec_entries()[i]).0 == a {
            let i = choose|i: int| 0 <= i < self.spec_entries().len() && (#[trigger] self.spec_entries()[i]).0 == a;
            Some(self.spec_entries()[i].1)
        } else {
            None
        }
    }

    fn find(&self, a: &H160) -> (r: Option<usize>)
        requires
            self.wf(),
        ensures
            match r {
                Some(i) => i < self.entries@.len() && self.entries@[i as int].0 == *a,
                None => forall|i: int| 0 <= i < self.entries@.len() ==> self.entries@[i].0 != *a,
            },
    {
        let mut i: usize = 0;
        while i < self.entries.len()
            invariant
                i <= self.entries@.len(),
                forall|j: int| 0 <= j < i ==> self.entries@[j].0 != *a,
            decreases self.entries@.len() - i,
        {
            if self.entries[i].0.equals(a) {
                return Some(i);
            }
            i = i + 1;
        }
        None
    }

    /// A state with no accounts.
    pub fn empty() -> (r: State)
        ensures
            r.wf(),
            forall|a: H160| r.lookup(a) is None,
    {
        State { entries: Vec::new() }
    }

    /// The nonce and balance of `address`, if it has an account.
    pub fn get(&self, address: &H160) -> (r: Option<&(u32, u64)>)
        requires
            self.wf(),
        ensures
            r == match self.lookup(*address) {
                Some(v) => Some(&v),
                None => None::<&(u32, u64)>,
            },
    {
        match self.find(address) {
            Some(i) => {
                proof {
                    let k = choose|k: int| 0 <= k < self.spec_entries().len() && (#[trigger] self.spec_entries()[k]).0 == *address;
                    assert(self.spec_entries()[i as int].0 == *address);
                }
                Some(&self.entries[i].1)
            },
            None => None,
        }
    }

    /// Sets the nonce and balance of `address`, creating its account.
    pub fn update(&mut self, address: H160, nonce: u32, balance: u64)
        requires
            old(self).wf(),
        ensures
            final(self).wf(),
            final(self).lookup(address) == Some((nonce, balance)),
            forall|a: H160| a != address ==> #[trigger] final(self).lookup(a) == old(self).lookup(a),
    {
        let ghost before = *self;
        match self.find(&address) {
            Some(i) => {
                self.entries.set(i, (address, (nonce, balance)));
                proof {
                    assert(self.spec_entries()[i as int].0 == address);
                    assert forall|a: H160| a != address implies #[trigger] self.lookup(a) == before.lookup(a) by {
                        if exists|k: int| 0 <= k < before.spec_entries().len() && (#[trigger] before.spec_entries()[k]).0 == a {
                            let k = choose|k: int| 0 <= k < before.spec_entries().len() && (#[trigger] before.spec_entries()[k]).0 == a;
                            assert(self.spec_entries()[k].0 == a);
                        }
                        if exists|k: int| 0 <= k < self.spec_entries().len() && (#[trigger] self.spec_entries()[k]).0 == a {
                            let k = choose|k: int| 0 <= k < self.spec_entries().len() && (#[trigger] self.spec_entries()[k]).0 == a;
                            assert(before.spec_entries()[k].0 == a);
                        }
                    }
                }
            },
            None => {
                self.entries.push((address, (nonce, balance)));
                proof {
                    let n = before.spec_entries().len() as int;
                    assert(self.spec_entries()[n].0 == address);
                    assert forall|a: H160| a != address implies #[trigger] self.lookup(a) == before.lookup(a) by {
                        if exists|k: int| 0 <= k < before.spec_entries().len() && (#[trigger] before.spec_entries()[k]).0 == a {
                            let k = choose|k: int| 0 <= k < before.spec_entries().len() && (#[trigger] before.spec_entries()[k]).0 == a;
                            assert(self.spec_entries()[k].0 == a);
                        }
                        if exists|k: int| 0 <= k < self.spec_entries().len() && (#[trigger] self.spec_entries()[k]).0 == a {
                            let k = choose|k: int| 0 <= k < self.spec_entries().len() && (#[trigger] self.spec_entries()[k]).0 == a;
                            assert(before.spec_entries()[k].0 == a);
                        }
                    }
                }
            },
        }
    }

    /// Initial coin offering: the `i`-th deterministic account, for `i` in
    /// `0..10`, holds `1000 * (10 - i)` coins at nonce 0. Only those ten
    /// addresses have accounts; should two of them coincide, the later
    /// account is the one kept.
    pub fn ico() -> (r: State)
        ensures
            r.wf(),
            forall|i: u8, a: H160|
                i < 10 && a@ == #[trigger] deterministic_address(i) ==> #[trigger] r.lookup(a) is Some,
            forall|i: u8, a: H160|
                i < 10 && a@ == #[trigger] deterministic_address(i) && (forall|j: u8|
                    j < 10 && j != i ==> deterministic_address(j) != deterministic_address(i)) ==> #[trigger] r.lookup(a)
                    == Some((0u32, (1000 * (10 - i)) as u64)),
            forall|a: H160| #[trigger] r.lookup(a) is Some ==> exists|i: u8| i < 10 && a@ == deterministic_address(i),
    {
        let mut state = State::empty();
        let mut i: u8 = 0;
        while i < 10
            invariant
                i <= 10,
                state.wf(),
                forall|j: u8, a: H160| j < i && a@ == #[trigger] deterministic_address(j) ==> #[trigger] state.lookup(a) is Some,
                forall|j: u8, a: H160|
                    j < i && a@ == #[trigger] deterministic_address(j) && (forall|k: u8|
                        k < 10 && k != j ==> deterministic_address(k) != deterministic_address(j)) ==> #[trigger] state.lookup(a)
                        == Some((0u32, (1000 * (10 - j)) as u64)),
                forall|a: H160| #[trigger] state.lookup(a) is Some ==> exists|j: u8| j < i && a@ == deterministic_address(j),
            decreases 10 - i,
        {
            let address = deterministic_address_of(i);
            let balance: u64 = 1000 * ((10 - i) as u64);
            let nonce: u32 = 0;
            let ghost before = state;
            state.update(address, nonce, balance);
            proof {
                assert forall|a: H160| #[trigger] state.lookup(a) is Some implies exists|j: u8| j < i + 1 && a@ == deterministic_address(j) by {
                    if a != address {
                        assert(before.lookup(a) is Some);
                        let j = choose|j: u8| j < i && a@ == deterministic_address(j);
                        assert(j < i + 1 && a@ == deterministic_address(j));
                    } else {
                        assert(i < i + 1 && a@ == deterministic_address(i));
                    }
                }
                assert forall|j: u8, a: H160| j < i + 1 && a@ == #[trigger] deterministic_address(j) implies #[trigger] state.lookup(a) is Some by {
                    if a != address {
                        assert(state.lookup(a) == before.lookup(a));
                        if j < i {
                            assert(before.lookup(a) is Some);
                        }
                        if j == i {
                            crate::hash::lemma_h160_view_injective(a, address);
                        }
                    }
                }
                assert forall|j: u8, a: H160|
                    j < i + 1 && a@ == #[trigger] deterministic_address(j) && (forall|k: u8|
                        k < 10 && k != j ==> deterministic_address(k) != deterministic_address(j)) implies #[trigger] state.lookup(a)
                        == Some((0u32, (1000 * (10 - j)) as u64)) by {
                    if j == i {
                        crate::hash::lemma_h160_view_injective(a, address);
                    } else {
                        assert(deterministic_address(i) != deterministic_address(j));
                        assert(a != address);
                        assert(state.lookup(a) == before.lookup(a));
                    }
                }
            }
            i = i + 1;
        }
        state
    }
}

} // verus!
