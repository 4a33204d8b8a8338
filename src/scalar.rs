use vstd::prelude::*;

verus! {

/// The key that orders IEEE-754 single-precision bit patterns by `totalOrder`:
/// negative values (sign bit set) have all their bits flipped, the others have
/// the sign bit set, so that the unsigned order of keys is the total order.
pub open spec fn total_key(bits: u32) -> u32 {
    if bits >= 0x8000_0000u32 {
        (0xFFFF_FFFFu32 - bits) as u32
    } else {
        (bits + 0x8000_0000u32) as u32
    }
}

/// A single-precision float held by its bit pattern, ordered by `totalOrder`
/// and compared and hashed by its bits (the derived `Hash` reads the bits
/// alone), so that a NaN equals itself and equal values hash alike.
#[derive(Clone, Copy, Debug, Hash)]
pub struct HashScalar {
    pub bits: u32,
}

impl HashScalar {
    pub open spec fn view_bits(&self) -> u32 {
        self.bits
    }

    pub fn new(bits: u32) -> (r: Self)
        ensures
            r.view_bits() == bits,
    {
        HashScalar { bits }
    }

    pub fn into_inner(self) -> (r: u32)
        ensures
            r == self.view_bits(),
    {
        self.bits
    }

    /// The key of this value in the total order.
    pub fn key(&self) -> (r: u32)
        ensures
            r == total_key(self.view_bits()),
    {
        if self.bits >= 0x8000_0000u32 {
            0xFFFF_FFFFu32 - self.bits
        } else {
            self.bits + 0x8000_0000u32
        }
    }

    /// Compares two values by `totalOrder`.
    pub fn total_cmp(&self, other: &HashScalar) -> (r: core::cmp::Ordering)
        ensures
            r == cmp_keys(total_key(self.view_bits()), total_key(other.view_bits())),
    {
        let a = self.key();
        let b = other.key();
        if a < b {
            core::cmp::Ordering::Less
        } else if a == b {
            core::cmp::Ordering::Equal
        } else {
            core::cmp::Ordering::Greater
        }
    }
}

pub open spec fn cmp_keys(a: u32, b: u32) -> core::cmp::Ordering {
    if a < b {
        core::cmp::Ordering::Less
    } else if a == b {
        core::cmp::Ordering::Equal
    } else {
        core::cmp::Ordering::Greater
    }
}

impl PartialEq for HashScalar {
    fn eq(&self, other: &HashScalar) -> (r: bool) {
        self.bits == other.bits
    }
}

impl vstd::std_specs::cmp::PartialEqSpecImpl for HashScalar {
    open spec fn obeys_eq_spec() -> bool {
        true
    }

    open spec fn eq_spec(&self, other: &HashScalar) -> bool {
        self.bits == other.bits
    }
}

impl Eq for HashScalar {
}

/// `totalOrder` on the wrapper is a total order that agrees with equality:
/// it is reflexive, antisymmetric, transitive and total, two values are
/// `Equal` exactly when their bits (and so their hashes) agree, and a NaN
/// equals a NaN of the same bits.
pub proof fn lemma_total_order(a: HashScalar, b: HashScalar, c: HashScalar)
    ensures
        cmp_keys(total_key(a.view_bits()), total_key(a.view_bits())) == core::cmp::Ordering::Equal,
        (cmp_keys(total_key(a.view_bits()), total_key(b.view_bits())) == core::cmp::Ordering::Equal)
            <==> a.view_bits() == b.view_bits(),
        cmp_keys(total_key(a.view_bits()), total_key(b.view_bits())) == core::cmp::Ordering::Less
            <==> cmp_keys(total_key(b.view_bits()), total_key(a.view_bits()))
            == core::cmp::Ordering::Greater,
        (cmp_keys(total_key(a.view_bits()), total_key(b.view_bits())) == core::cmp::Ordering::Less
            && cmp_keys(total_key(b.view_bits()), total_key(c.view_bits()))
            == core::cmp::Ordering::Less) ==> cmp_keys(
            total_key(a.view_bits()),
            total_key(c.view_bits()),
        ) == core::cmp::Ordering::Less,
{
}

} // verus!
