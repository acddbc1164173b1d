//! Laying out a whole document, signature after signature.

use vstd::prelude::*;
use crate::params::{Placement, SignatureParams, pairs, sources, destinations, page_range};
use crate::partition::{
    partition, partition_of, sheet_counts, sheets_for, total_pages, lemma_partition_exhaustive,
    lemma_partition_shape,
};
use crate::signature::{
    signature_with, signature_placements, source_at, position_of, lemma_source_of_position,
    lemma_position_of_source,
};

verus! {

/// The placements of a list of signatures that follow one another from page
/// 0 on: each signature begins where the one before it ends.
pub open spec fn arrangement(parts: Seq<int>) -> Seq<(int, int)>
    decreases parts.len(),
{
    if parts.len() == 0 {
        Seq::empty()
    } else {
        arrangement(parts.drop_last()) + signature_placements(
            total_pages(parts.drop_last()),
            parts.last(),
        )
    }
}

/// The position in the printed order on which page `page` is shown by a
/// list of signatures: the inverse of the sources of [`arrangement`].
pub open spec fn arranged_position(parts: Seq<int>, page: int) -> int
    decreases parts.len(),
{
    if parts.len() == 0 {
        0
    } else if page >= total_pages(parts.drop_last()) {
        total_pages(parts.drop_last()) + position_of(
            total_pages(parts.drop_last()),
            parts.last(),
            page,
        )
    } else {
        arranged_position(parts.drop_last(), page)
    }
}

/// No signature has a negative number of sheets.
pub open spec fn sheets_counted(parts: Seq<int>) -> bool {
    forall|i: int| 0 <= i < parts.len() ==> parts[i] >= 0
}

/// Arranges the pages of a document of `num_pages` pages: cuts it into
/// signatures as `params` ask, and appends to `out` the placements of each
/// signature in turn.
pub fn arrange_pages_with(num_pages: usize, params: SignatureParams, out: &mut Vec<Placement>)
    requires
        params.wf(),
        4 * sheets_for(num_pages as int) <= usize::MAX,
    ensures
        pairs(final(out)@) == pairs(old(out)@) + arrangement(
            partition_of(
                num_pages as int,
                params.signature_size as int,
                params.minimum_remainder_size as int,
            ),
        ),
        final(out)@.len() == old(out)@.len() + 4 * sheets_for(num_pages as int),
        forall|j: int| 0 <= j < old(out)@.len() ==> final(out)@[j] == old(out)@[j],
        forall|k: int|
            0 <= k < 4 * sheets_for(num_pages as int) ==> {
                &&& (#[trigger] final(out)@[old(out)@.len() + k]).destination == k
                &&& final(out)@[old(out)@.len() + k].source < 4 * sheets_for(num_pages as int)
            },
{
    let sheets = partition(num_pages, params);
    let ghost parts = sheet_counts(sheets@);
    let ghost earlier = out@;
    let ghost before = pairs(out@);
    proof {
        lemma_partition_shape(
            num_pages as int,
            params.signature_size as int,
            params.minimum_remainder_size as int,
        );
        lemma_partition_exhaustive(
            num_pages as int,
            params.signature_size as int,
            params.minimum_remainder_size as int,
        );
        assert(parts.take(0) =~= Seq::<int>::empty());
        assert(pairs(out@) =~= before + arrangement(parts.take(0)));
    }
    let mut offset: usize = 0;
    let mut idx: usize = 0;
    while idx < sheets.len()
        invariant
            idx <= sheets.len(),
            parts == sheet_counts(sheets@),
            sheets_counted(parts),
            total_pages(parts) <= usize::MAX,
            offset == total_pages(parts.take(idx as int)),
            pairs(out@) == before + arrangement(parts.take(idx as int)),
            out@.len() >= earlier.len(),
            forall|j: int| 0 <= j < earlier.len() ==> out@[j] == earlier[j],
        decreases sheets.len() - idx,
    {
        let count: usize = sheets[idx];
        proof {
            let upto = parts.take(idx + 1);
            assert(upto.drop_last() =~= parts.take(idx as int));
            assert(upto.last() == count);
            lemma_total_pages_prefix(parts, idx + 1);
        }
        signature_with(offset, count, out);
        proof {
            assert(pairs(out@) =~= before + arrangement(parts.take(idx + 1)));
        }
        offset += count * 4;
        idx += 1;
    }
    proof {
        assert(parts.take(idx as int) =~= parts);
        lemma_arrangement_destinations(parts);
        assert(pairs(out@).len() == before.len() + arrangement(parts).len());
        assert forall|k: int| 0 <= k < total_pages(parts) implies {
            &&& (#[trigger] out@[earlier.len() + k]).destination == k
            &&& out@[earlier.len() + k].source < total_pages(parts)
        } by {
            lemma_arranged_source(parts, k);
            assert(pairs(out@)[earlier.len() + k] == arrangement(parts)[k]);
        }
    }
}

/// The signatures at the front of a list cover no more pages than the
/// whole list.
pub proof fn lemma_total_pages_prefix(parts: Seq<int>, n: int)
    requires
        sheets_counted(parts),
        0 <= n <= parts.len(),
    ensures
        0 <= total_pages(parts.take(n)) <= total_pages(parts),
    decreases parts.len(),
{
    if n == parts.len() {
        assert(parts.take(n) =~= parts);
        if n > 0 {
            assert(sheets_counted(parts.drop_last()));
            lemma_total_pages_prefix(parts.drop_last(), n - 1);
            assert(parts.drop_last().take(n - 1) =~= parts.take(n - 1));
            lemma_total_pages_prefix(parts.drop_last(), 0);
        }
    } else {
        assert(sheets_counted(parts.drop_last()));
        lemma_total_pages_prefix(parts.drop_last(), n);
        assert(parts.drop_last().take(n) =~= parts.take(n));
    }
}

/// A list of signatures fills the printed order from its first page on:
/// it issues one placement for every page that it covers, and placement `k`
/// writes page `k`.
pub proof fn lemma_arrangement_destinations(parts: Seq<int>)
    requires
        sheets_counted(parts),
    ensures
        arrangement(parts).len() == total_pages(parts),
        forall|k: int| 0 <= k < total_pages(parts) ==> (#[trigger] arrangement(parts)[k]).1 == k,
    decreases parts.len(),
{
    if parts.len() > 0 {
        assert(sheets_counted(parts.drop_last()));
        lemma_arrangement_destinations(parts.drop_last());
    }
}

/// Within a list of signatures, every position shows a page that the list
/// covers, and [`arranged_position`] finds the position again.
pub proof fn lemma_arranged_source(parts: Seq<int>, k: int)
    requires
        sheets_counted(parts),
        0 <= k < total_pages(parts),
    ensures
        0 <= arrangement(parts)[k].0 < total_pages(parts),
        arranged_position(parts, arrangement(parts)[k].0) == k,
    decreases parts.len(),
{
    if parts.len() > 0 {
        let front = parts.drop_last();
        let offset = total_pages(front);
        assert(sheets_counted(front));
        lemma_arrangement_destinations(front);
        lemma_total_pages_prefix(front, 0);
        if k < offset {
            lemma_arranged_source(front, k);
        } else {
            lemma_source_of_position(offset, parts.last(), k - offset);
            assert(arrangement(parts)[k].0 == source_at(offset, parts.last(), k - offset));
        }
    }
}

/// Within a list of signatures, every page that the list covers is shown on
/// one position, which [`arranged_position`] names.
pub proof fn lemma_arranged_position(parts: Seq<int>, page: int)
    requires
        sheets_counted(parts),
        0 <= page < total_pages(parts),
    ensures
        0 <= arranged_position(parts, page) < total_pages(parts),
        arrangement(parts)[arranged_position(parts, page)].0 == page,
    decreases parts.len(),
{
    if parts.len() > 0 {
        let front = parts.drop_last();
        let offset = total_pages(front);
        assert(sheets_counted(front));
        lemma_arrangement_destinations(front);
        lemma_total_pages_prefix(front, 0);
        if page < offset {
            lemma_arranged_position(front, page);
        } else {
            lemma_position_of_source(offset, parts.last(), page);
            let k = position_of(offset, parts.last(), page);
            assert(arrangement(parts)[offset + k].0 == source_at(offset, parts.last(), k));
        }
    }
}

/// The destinations of a list of signatures are the pages that the list
/// covers, each written once.
pub proof fn lemma_arrangement_writes_each_page_once(parts: Seq<int>)
    requires
        sheets_counted(parts),
    ensures
        destinations(arrangement(parts)).no_duplicates(),
        destinations(arrangement(parts)).to_set() == page_range(0, total_pages(parts)),
{
    lemma_arrangement_destinations(parts);
    let dests = destinations(arrangement(parts));
    assert forall|page: int| dests.contains(page) <==> page_range(0, total_pages(parts)).contains(
        page,
    ) by {
        if 0 <= page < total_pages(parts) {
            assert(dests[page] == page);
        }
    }
    assert(dests.to_set() =~= page_range(0, total_pages(parts)));
}

/// The sources of a list of signatures are the pages that the list covers,
/// each read once.
pub proof fn lemma_arrangement_reads_each_page_once(parts: Seq<int>)
    requires
        sheets_counted(parts),
    ensures
        sources(arrangement(parts)).no_duplicates(),
        sources(arrangement(parts)).to_set() == page_range(0, total_pages(parts)),
{
    lemma_arrangement_destinations(parts);
    let srcs = sources(arrangement(parts));
    assert forall|a: int, b: int| 0 <= a < srcs.len() && 0 <= b < srcs.len() && a != b implies srcs[a]
        != srcs[b] by {
        lemma_arranged_source(parts, a);
        lemma_arranged_source(parts, b);
    }
    assert forall|page: int| srcs.contains(page) <==> page_range(0, total_pages(parts)).contains(
        page,
    ) by {
        if srcs.contains(page) {
            let k = choose|k: int| 0 <= k < srcs.len() && srcs[k] == page;
            lemma_arranged_source(parts, k);
        }
        if 0 <= page < total_pages(parts) {
            lemma_arranged_position(parts, page);
            assert(srcs[arranged_position(parts, page)] == page);
        }
    }
    assert(srcs.to_set() =~= page_range(0, total_pages(parts)));
}

/// Arranging a document whose page count is a multiple of four writes every
/// page of the printed order exactly once, and reads every page of the
/// document exactly once: the placements are as many as the pages, their
/// destinations are the pages `0` to `pages - 1` without a repeat, and so
/// are their sources.
pub proof fn lemma_arrangement_total(pages: int, size: int, minimum: int)
    requires
        pages >= 0,
        pages % 4 == 0,
        size > 0,
        minimum >= 0,
    ensures
        arrangement(partition_of(pages, size, minimum)).len() == pages,
        destinations(arrangement(partition_of(pages, size, minimum))).no_duplicates(),
        destinations(arrangement(partition_of(pages, size, minimum))).to_set() == page_range(
            0,
            pages,
        ),
        sources(arrangement(partition_of(pages, size, minimum))).no_duplicates(),
        sources(arrangement(partition_of(pages, size, minimum))).to_set() == page_range(0, pages),
{
    lemma_arrangement_covers(pages, size, minimum);
}

/// Arranging a document of any page count covers the document rounded up to
/// whole sheets: the destinations are the pages below `4 * sheets_for(pages)`
/// without a repeat, and so are the sources.
pub proof fn lemma_arrangement_covers(pages: int, size: int, minimum: int)
    requires
        pages >= 0,
        size > 0,
        minimum >= 0,
    ensures
        arrangement(partition_of(pages, size, minimum)).len() == 4 * sheets_for(pages),
        destinations(arrangement(partition_of(pages, size, minimum))).no_duplicates(),
        destinations(arrangement(partition_of(pages, size, minimum))).to_set() == page_range(
            0,
            4 * sheets_for(pages),
        ),
        sources(arrangement(partition_of(pages, size, minimum))).no_duplicates(),
        sources(arrangement(partition_of(pages, size, minimum))).to_set() == page_range(
            0,
            4 * sheets_for(pages),
        ),
{
    let parts = partition_of(pages, size, minimum);
    lemma_partition_shape(pages, size, minimum);
    lemma_partition_exhaustive(pages, size, minimum);
    lemma_arrangement_destinations(parts);
    lemma_arrangement_writes_each_page_once(parts);
    lemma_arrangement_reads_each_page_once(parts);
}

} // verus!
