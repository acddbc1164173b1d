//! The fold pattern of a single signature.

use vstd::prelude::*;
use crate::params::{Placement, pairs, sources, destinations, page_range};

verus! {

/// The page that is printed on position `k` of a signature of `sheets`
/// sheets whose first page is `start`.
///
/// Position `k` lies on sheet `k / 4`. The first and the last position of a
/// sheet take pages from the back of the signature, the two in the middle
/// take pages from its front; every sheet uses up two pages at either end.
pub open spec fn source_at(start: int, sheets: int, k: int) -> int {
    let sheet = k / 4;
    let end = start + 4 * sheets;
    if k % 4 == 0 {
        end - (2 * sheet + 1)
    } else if k % 4 == 1 {
        start + 2 * sheet
    } else if k % 4 == 2 {
        start + 2 * sheet + 1
    } else {
        end - (2 * sheet + 2)
    }
}

/// The position of a signature on which page `page` is printed: the inverse
/// of [`source_at`].
pub open spec fn position_of(start: int, sheets: int, page: int) -> int {
    let front = page - start;
    let back = start + 4 * sheets - 1 - page;
    if front < 2 * sheets {
        4 * (front / 2) + 1 + front % 2
    } else if back % 2 == 0 {
        4 * (back / 2)
    } else {
        4 * (back / 2) + 3
    }
}

/// The placement with number `k` of a signature: source and destination.
pub open spec fn placement_at(start: int, sheets: int, k: int) -> (int, int) {
    (source_at(start, sheets, k), start + k)
}

/// All placements of a signature, in the order in which they are issued.
pub open spec fn signature_placements(start: int, sheets: int) -> Seq<(int, int)> {
    Seq::new((4 * sheets) as nat, |k: int| placement_at(start, sheets, k))
}

/// Appends to `out` the placements of the signature that begins at page
/// `start` and has `num_sheets` sheets: four for each sheet, sheet by sheet.
pub fn signature_with(start: usize, num_sheets: usize, out: &mut Vec<Placement>)
    requires
        start + 4 * num_sheets <= usize::MAX,
    ensures
        pairs(final(out)@) == pairs(old(out)@) + signature_placements(
            start as int,
            num_sheets as int,
        ),
        final(out)@.len() == old(out)@.len() + 4 * num_sheets,
        forall|j: int| 0 <= j < old(out)@.len() ==> final(out)@[j] == old(out)@[j],
        num_sheets == 0 ==> final(out)@ == old(out)@,
{
    let end: usize = start + num_sheets * 4;
    let ghost before = out@;
    let mut i: usize = 0;
    while i < num_sheets
        invariant
            i <= num_sheets,
            end == start + 4 * num_sheets,
            end <= usize::MAX,
            out@.len() == before.len() + 4 * i,
            forall|j: int| 0 <= j < before.len() ==> out@[j] == before[j],
            forall|k: int|
                0 <= k < 4 * i ==> (#[trigger] out@[before.len() + k])@ == placement_at(
                    start as int,
                    num_sheets as int,
                    k,
                ),
        decreases num_sheets - i,
    {
        let s: usize = i * 2;
        let dest: usize = start + i * 4;
        let ghost prev = out@;
        out.push(Placement { source: end - (s + 1), destination: dest });
        out.push(Placement { source: start + s, destination: dest + 1 });
        out.push(Placement { source: start + s + 1, destination: dest + 2 });
        out.push(Placement { source: end - (s + 2), destination: dest + 3 });
        proof {
            assert forall|k: int| 0 <= k < 4 * (i + 1) implies (#[trigger] out@[before.len()
                + k])@ == placement_at(start as int, num_sheets as int, k) by {
                if k < 4 * i {
                    assert(out@[before.len() + k] == prev[before.len() + k]);
                }
            }
        }
        i += 1;
    }
    proof {
        let issued = pairs(before) + signature_placements(start as int, num_sheets as int);
        assert forall|j: int| 0 <= j < out@.len() implies pairs(out@)[j] == issued[j] by {
            if j >= before.len() {
                let k = j - before.len();
                assert(out@[before.len() + k]@ == placement_at(start as int, num_sheets as int, k));
            }
        }
        assert(pairs(out@) =~= issued);
        if num_sheets == 0 {
            assert(out@ =~= before);
        }
    }
}

/// Every position of a signature shows a page of that signature, and
/// [`position_of`] finds the position again.
pub proof fn lemma_source_of_position(start: int, sheets: int, k: int)
    requires
        0 <= k < 4 * sheets,
    ensures
        start <= source_at(start, sheets, k) < start + 4 * sheets,
        position_of(start, sheets, source_at(start, sheets, k)) == k,
{
}

/// Every page of a signature is shown on one of its positions, which
/// [`position_of`] names.
pub proof fn lemma_position_of_source(start: int, sheets: int, page: int)
    requires
        start <= page < start + 4 * sheets,
    ensures
        0 <= position_of(start, sheets, page) < 4 * sheets,
        source_at(start, sheets, position_of(start, sheets, page)) == page,
{
}

/// A signature fills its own destinations in order: it issues four
/// placements per sheet, and placement `k` writes page `start + k`.
pub proof fn lemma_signature_destinations(start: int, sheets: int)
    requires
        sheets >= 0,
    ensures
        signature_placements(start, sheets).len() == 4 * sheets,
        forall|k: int|
            0 <= k < 4 * sheets ==> (#[trigger] signature_placements(start, sheets)[k]).1 == start
                + k,
        destinations(signature_placements(start, sheets)).no_duplicates(),
        destinations(signature_placements(start, sheets)).to_set() == page_range(
            start,
            start + 4 * sheets,
        ),
{
    let dests = destinations(signature_placements(start, sheets));
    assert forall|page: int| dests.contains(page) <==> page_range(
        start,
        start + 4 * sheets,
    ).contains(page) by {
        if start <= page < start + 4 * sheets {
            assert(dests[page - start] == page);
        }
    }
    assert(dests.to_set() =~= page_range(start, start + 4 * sheets));
}

/// A signature without sheets issues no placement, wherever it begins.
pub proof fn lemma_signature_without_sheets(start: int)
    ensures
        signature_placements(start, 0) == Seq::<(int, int)>::empty(),
{
    assert(signature_placements(start, 0) =~= Seq::<(int, int)>::empty());
}

/// A signature reads each of its own pages exactly once: no page is the
/// source of two placements, and the sources are the pages from `start` up
/// to `start + 4 * sheets`, none left out.
pub proof fn lemma_signature_sources(start: int, sheets: int)
    requires
        sheets >= 0,
    ensures
        sources(signature_placements(start, sheets)).no_duplicates(),
        sources(signature_placements(start, sheets)).to_set() == page_range(
            start,
            start + 4 * sheets,
        ),
{
    let srcs = sources(signature_placements(start, sheets));
    assert forall|a: int, b: int| 0 <= a < srcs.len() && 0 <= b < srcs.len() && a != b implies srcs[a]
        != srcs[b] by {
        lemma_source_of_position(start, sheets, a);
        lemma_source_of_position(start, sheets, b);
    }
    assert forall|page: int| srcs.contains(page) <==> page_range(
        start,
        start + 4 * sheets,
    ).contains(page) by {
        if srcs.contains(page) {
            let k = choose|k: int| 0 <= k < srcs.len() && srcs[k] == page;
            lemma_source_of_position(start, sheets, k);
        }
        if start <= page < start + 4 * sheets {
            lemma_position_of_source(start, sheets, page);
            assert(srcs[position_of(start, sheets, page)] == page);
        }
    }
    assert(srcs.to_set() =~= page_range(start, start + 4 * sheets));
}

} // verus!
