use vstd::prelude::*;

verus! {

/// Newtype for the bag id `[u8; 32]`: a 32-byte identifier issued off-chain,
/// compared bytewise.
#[derive(Debug, Clone, Copy)]
pub struct BagId(pub [u8; 32]);

impl View for BagId {
    type V = Seq<u8>;

    open spec fn view(&self) -> Seq<u8> {
        self.0@
    }
}

/// Bytewise equality of two 32-byte values.
pub fn bytes32_eq(a: &[u8; 32], b: &[u8; 32]) -> (r: bool)
    ensures
        r <==> a@ == b@,
{
    let mut i: usize = 0;
    while i < 32
        invariant
            i <= 32,
            forall|j: int| 0 <= j < i ==> a@[j] == b@[j],
        decreases 32 - i,
    {
        if a[i] != b[i] {
            assert(a@[i as int] != b@[i as int]);
            return false;
        }
        i = i + 1;
    }
    proof {
        assert(a@ =~= b@);
    }
    true
}

impl BagId {
    /// Bytewise equality test usable from verified code.
    pub fn eq_id(&self, other: &BagId) -> (r: bool)
        ensures
            r <==> self@ == other@,
    {
        bytes32_eq(&self.0, &other.0)
    }
}

} // verus!
