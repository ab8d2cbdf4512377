//! The data model: fixed-width identifiers, asset records, errors and
//! notifications.

use vstd::prelude::*;

verus! {

/// Width in bytes of an identifier / genetic payload / seed value.
pub const HASH_BYTES: usize = 32;

/// A fixed-width byte value: an asset identifier, a genetic payload, or an
/// externally supplied seed.  First-generation assets use their identifier as
/// their genetic payload, so one type serves both roles.
pub struct Hash256 {
    bytes: Vec<u8>,
}

impl View for Hash256 {
    type V = Seq<u8>;

    closed spec fn view(&self) -> Seq<u8> {
        self.bytes@
    }
}

impl Hash256 {
    /// A well-formed value holds exactly `HASH_BYTES` bytes.
    pub open spec fn wf(&self) -> bool {
        self@.len() == HASH_BYTES
    }

    /// Builds a value from raw bytes; rejects any length other than
    /// `HASH_BYTES`.
    pub fn from_bytes(bytes: Vec<u8>) -> (r: Option<Hash256>)
        ensures
            match r {
                Some(h) => h.wf() && h@ == bytes@,
                None => bytes@.len() != HASH_BYTES,
            },
    {
        if bytes.len() == HASH_BYTES {
            Some(Hash256 { bytes })
        } else {
            None
        }
    }

    /// Builds a value from raw bytes already known to have the right length.
    pub fn from_exact_bytes(bytes: Vec<u8>) -> (r: Hash256)
        requires
            bytes@.len() == HASH_BYTES,
        ensures
            r.wf(),
            r@ == bytes@,
    {
        Hash256 { bytes }
    }

    pub fn len(&self) -> (r: usize)
        ensures
            r == self@.len(),
    {
        self.bytes.len()
    }

    pub fn byte_at(&self, i: usize) -> (r: u8)
        requires
            i < self@.len(),
        ensures
            r == self@[i as int],
    {
        self.bytes[i]
    }

    /// Byte-wise equality of two values.
    pub fn eq_bytes(&self, other: &Hash256) -> (r: bool)
        ensures
            r == (self@ == other@),
    {
        if self.bytes.len() != other.bytes.len() {
            return false;
        }
        let n = self.bytes.len();
        let mut i: usize = 0;
        while i < n
            invariant
                i <= n,
                n == self@.len(),
                n == other@.len(),
                forall|j: int| 0 <= j < i ==> self@[j] == other@[j],
            decreases n - i,
        {
            if self.bytes[i] != other.bytes[i] {
                return false;
            }
            i += 1;
        }
        proof {
            assert(self@ =~= other@);
        }
        true
    }

    /// An owned copy with the same bytes.
    pub fn duplicate(&self) -> (r: Hash256)
        ensures
            r@ == self@,
    {
        let n = self.bytes.len();
        let mut bytes: Vec<u8> = Vec::new();
        let mut i: usize = 0;
        while i < n
            invariant
                i <= n,
                n == self@.len(),
                bytes@.len() == i,
                forall|j: int| 0 <= j < i ==> bytes@[j] == self@[j],
            decreases n - i,
        {
            bytes.push(self.bytes[i]);
            i += 1;
        }
        proof {
            assert(bytes@ =~= self@);
        }
        Hash256 { bytes }
    }
}

/// An asset record: identity, genetic payload, sale price (0 means "not for
/// sale") and generation (0 for originally minted assets).
pub struct Kitty {
    pub id: Hash256,
    pub dna: Hash256,
    pub price: u64,
    pub gen: u64,
}

impl Kitty {
    pub open spec fn wf(&self) -> bool {
        self.id.wf() && self.dna.wf()
    }

    /// An owned copy with the same contents.
    pub fn duplicate(&self) -> (r: Kitty)
        ensures
            r.id@ == self.id@,
            r.dna@ == self.dna@,
            r.price == self.price,
            r.gen == self.gen,
    {
        Kitty {
            id: self.id.duplicate(),
            dna: self.dna.duplicate(),
            price: self.price,
            gen: self.gen,
        }
    }
}

/// Why an operation failed.  Every failure is detected before any write for
/// that call is applied, so a failing call leaves all state unchanged.
#[derive(Clone, Copy, PartialEq, Eq, Debug)]
pub enum Error {
    /// The asset, or its owner record, does not exist.
    NotFound,
    /// The caller is not the owner of the asset.
    Unauthorized,
    /// The asset's price is 0, which means it is not listed for sale.
    NotForSale,
    /// A buyer may not buy an asset it already owns.
    SelfPurchase,
    /// The stored price exceeds the buyer's ceiling.
    PriceTooHigh,
    /// A counter would exceed its maximum representable value.
    Overflow,
    /// Removal from an owner whose enumeration index is already empty.
    Underflow,
    /// A freshly generated identifier is already in use.
    Collision,
    /// The payment capability rejected the balance transfer.
    PaymentFailed,
}

/// A notification describing one successful effect, in the order the effects
/// happened.  Operations append to a caller-supplied sink.
pub enum Event {
    /// created(owner, id)
    Created(u64, Hash256),
    /// price_set(owner, id, price)
    PriceSet(u64, Hash256, u64),
    /// transferred(from, to, id)
    Transferred(u64, u64, Hash256),
    /// bought(buyer, seller, id, price)
    Bought(u64, u64, Hash256, u64),
}

} // verus!
