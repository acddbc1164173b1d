//! The values the imposition works on.

use vstd::prelude::*;

verus! {

/// How a document is to be cut into signatures.
#[derive(Clone, Copy, Debug)]
pub struct SignatureParams {
    /// Preferred number of sheets per signature.
    pub signature_size: usize,
    /// Fewest sheets the last signature may have when it stands alone. A
    /// shorter rest is bound together with the signature before it.
    pub minimum_remainder_size: usize,
}

impl SignatureParams {
    /// A signature holds at least one sheet, and its page count fits the
    /// machine word.
    pub open spec fn wf(&self) -> bool {
        &&& self.signature_size > 0
        &&& self.signature_size * 4 <= usize::MAX
    }

    /// Tells whether these parameters describe a signature that can be laid out.
    pub fn is_valid(&self) -> (ok: bool)
        ensures
            ok == self.wf(),
    {
        self.signature_size > 0 && self.signature_size <= usize::MAX / 4
    }
}

/// One instruction of the imposition: the page found at `source` in the
/// document as it was read goes to `destination` in the printed order.
#[derive(Clone, Copy, Debug, PartialEq, Eq, Structural)]
pub struct Placement {
    pub source: usize,
    pub destination: usize,
}

impl View for Placement {
    type V = (int, int);

    open spec fn view(&self) -> (int, int) {
        (self.source as int, self.destination as int)
    }
}

/// The placements of a list as pairs of page indices, source first.
pub open spec fn pairs(list: Seq<Placement>) -> Seq<(int, int)> {
    list.map_values(|p: Placement| p@)
}

/// The source pages of a list of placements, in the order of the list.
pub open spec fn sources(list: Seq<(int, int)>) -> Seq<int> {
    list.map_values(|p: (int, int)| p.0)
}

/// The destination pages of a list of placements, in the order of the list.
pub open spec fn destinations(list: Seq<(int, int)>) -> Seq<int> {
    list.map_values(|p: (int, int)| p.1)
}

/// The page indices from `low` up to, and without, `high`.
pub open spec fn page_range(low: int, high: int) -> Set<int> {
    Set::new(|page: int| low <= page < high)
}

} // verus!
