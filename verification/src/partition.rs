//! Cutting a document into signatures.

use vstd::prelude::*;
use vstd::arithmetic::div_mod::lemma_fundamental_div_mod;
use crate::params::SignatureParams;

verus! {

/// The number of sheets needed to carry `pages` pages: a quarter of them,
/// rounded up.
pub open spec fn sheets_for(pages: int) -> int {
    (pages + 3) / 4
}

/// The number of signatures of `size` sheets that `pages` pages fill.
pub open spec fn natural_signatures(pages: int, size: int) -> int {
    pages / (4 * size)
}

/// The pages left over once every signature of `size` sheets is filled.
pub open spec fn natural_remainder(pages: int, size: int) -> int {
    pages % (4 * size)
}

/// Whether the rest is too thin to be bound alone and is joined to the
/// signature before it: there is a rest, it has at most `minimum` sheets'
/// worth of pages, and there is a signature to join it to.
pub open spec fn merges(pages: int, size: int, minimum: int) -> bool {
    &&& natural_remainder(pages, size) > 0
    &&& natural_remainder(pages, size) <= 4 * minimum
    &&& natural_signatures(pages, size) >= 1
}

/// The number of signatures of exactly `size` sheets in the partition.
pub open spec fn full_signatures(pages: int, size: int, minimum: int) -> int {
    if merges(pages, size, minimum) {
        natural_signatures(pages, size) - 1
    } else {
        natural_signatures(pages, size)
    }
}

/// The pages that go into the last signature of the partition.
pub open spec fn remainder_pages(pages: int, size: int, minimum: int) -> int {
    if merges(pages, size, minimum) {
        natural_remainder(pages, size) + 4 * size
    } else {
        natural_remainder(pages, size)
    }
}

/// The partition of `pages` pages: the sheet count of each signature, in
/// page order. The full signatures come first, then the one that takes the
/// rest.
pub open spec fn partition_of(pages: int, size: int, minimum: int) -> Seq<int> {
    Seq::new(full_signatures(pages, size, minimum) as nat, |i: int| size).push(
        sheets_for(remainder_pages(pages, size, minimum)),
    )
}

/// The pages that a list of signatures covers: four for every sheet.
pub open spec fn total_pages(parts: Seq<int>) -> int
    decreases parts.len(),
{
    if parts.len() == 0 {
        0
    } else {
        total_pages(parts.drop_last()) + 4 * parts.last()
    }
}

/// Sheet counts as mathematical integers.
pub open spec fn sheet_counts(list: Seq<usize>) -> Seq<int> {
    list.map_values(|c: usize| c as int)
}

/// The number of blank pages to append so that the page count becomes a
/// multiple of four. A count that already is one needs none.
pub fn blank_pages_needed(num_pages: usize) -> (blanks: usize)
    ensures
        blanks < 4,
        (num_pages + blanks) % 4 == 0,
        num_pages + blanks == 4 * sheets_for(num_pages as int),
{
    let rest: usize = num_pages % 4;
    if rest == 0 {
        0
    } else {
        4 - rest
    }
}

/// Decides how many signatures the document gets and how many sheets each
/// of them has. A page count that is no multiple of four is rounded up to
/// whole sheets in the last signature.
pub fn partition(num_pages: usize, params: SignatureParams) -> (sheets: Vec<usize>)
    requires
        params.wf(),
    ensures
        sheet_counts(sheets@) == partition_of(
            num_pages as int,
            params.signature_size as int,
            params.minimum_remainder_size as int,
        ),
{
    let pages_per_signature: usize = params.signature_size * 4;
    let mut num_signatures: usize = num_pages / pages_per_signature;
    let mut remainder: usize = num_pages % pages_per_signature;
    let thin: bool = if remainder % 4 == 0 {
        remainder / 4 <= params.minimum_remainder_size
    } else {
        remainder / 4 < params.minimum_remainder_size
    };
    if remainder > 0 && thin && num_signatures >= 1 {
        proof {
            lemma_fundamental_div_mod(num_pages as int, pages_per_signature as int);
            assert(pages_per_signature * num_signatures >= pages_per_signature)
                by (nonlinear_arith)
                requires
                    num_signatures >= 1,
                    pages_per_signature > 0,
            ;
        }
        num_signatures -= 1;
        remainder += pages_per_signature;
    }
    let last: usize = if remainder % 4 == 0 {
        remainder / 4
    } else {
        remainder / 4 + 1
    };
    let mut sheets: Vec<usize> = Vec::new();
    let mut sig: usize = 0;
    while sig < num_signatures
        invariant
            sig <= num_signatures,
            sheets@.len() == sig,
            forall|i: int| 0 <= i < sig ==> sheets@[i] == params.signature_size,
        decreases num_signatures - sig,
    {
        sheets.push(params.signature_size);
        sig += 1;
    }
    sheets.push(last);
    proof {
        assert(sheet_counts(sheets@) =~= partition_of(
            num_pages as int,
            params.signature_size as int,
            params.minimum_remainder_size as int,
        ));
    }
    sheets
}

/// Adding a signature to a list adds its pages to the total.
pub proof fn lemma_total_pages_push(parts: Seq<int>, sheets: int)
    ensures
        total_pages(parts.push(sheets)) == total_pages(parts) + 4 * sheets,
{
    assert(parts.push(sheets).drop_last() =~= parts);
}

/// Signatures of one size cover that size for each of them.
pub proof fn lemma_total_pages_uniform(count: nat, size: int)
    ensures
        total_pages(Seq::new(count, |i: int| size)) == 4 * size * count,
    decreases count,
{
    let parts = Seq::new(count, |i: int| size);
    if count > 0 {
        let shorter = (count - 1) as nat;
        lemma_total_pages_uniform(shorter, size);
        assert(parts.drop_last() =~= Seq::new(shorter, |i: int| size));
        assert(parts.last() == size);
        assert(4 * size * count == 4 * size * shorter + 4 * size) by (nonlinear_arith)
            requires
                shorter == count - 1,
        ;
    } else {
        assert(parts.len() == 0);
        assert(4 * size * count == 0) by (nonlinear_arith)
            requires
                count == 0,
        ;
    }
}

/// The full signatures and the last one hold every page between them, and
/// neither count is negative.
pub proof fn lemma_partition_split(pages: int, size: int, minimum: int)
    requires
        pages >= 0,
        size > 0,
        minimum >= 0,
    ensures
        full_signatures(pages, size, minimum) >= 0,
        remainder_pages(pages, size, minimum) >= 0,
        4 * size * full_signatures(pages, size, minimum) + remainder_pages(pages, size, minimum)
            == pages,
{
    let q = natural_signatures(pages, size);
    lemma_fundamental_div_mod(pages, 4 * size);
    assert(q >= 0) by (nonlinear_arith)
        requires
            q == pages / (4 * size),
            pages >= 0,
            size > 0,
    ;
    assert(4 * size * (q - 1) == (4 * size) * q - 4 * size) by (nonlinear_arith);
    assert(4 * size * q == (4 * size) * q) by (nonlinear_arith);
}

/// The signatures of a partition cover the whole document: their sheets
/// carry as many pages as the document has, rounded up to whole sheets, and
/// exactly as many where the page count is a multiple of four.
pub proof fn lemma_partition_exhaustive(pages: int, size: int, minimum: int)
    requires
        pages >= 0,
        size > 0,
        minimum >= 0,
    ensures
        total_pages(partition_of(pages, size, minimum)) == 4 * sheets_for(pages),
        pages % 4 == 0 ==> total_pages(partition_of(pages, size, minimum)) == pages,
{
    let full = full_signatures(pages, size, minimum);
    let rest = remainder_pages(pages, size, minimum);
    lemma_partition_split(pages, size, minimum);
    lemma_total_pages_uniform(full as nat, size);
    lemma_total_pages_push(Seq::new(full as nat, |i: int| size), sheets_for(rest));
    let whole = size * full;
    assert(4 * size * full == 4 * whole) by (nonlinear_arith)
        requires
            whole == size * full,
    ;
    assert(sheets_for(4 * whole + rest) == whole + sheets_for(rest));
}

/// The rule for a thin rest. Where filling signatures of the preferred size
/// leaves a rest of at most `minimum` sheets' worth of pages, and at least
/// one signature was filled, the last signature of the partition is longer
/// than the preferred size and there are as many signatures as were filled.
/// Otherwise the last signature carries just the rest, and there is one
/// signature more than were filled.
pub proof fn lemma_remainder_merge_policy(pages: int, size: int, minimum: int)
    requires
        pages >= 0,
        size > 0,
        minimum >= 0,
    ensures
        merges(pages, size, minimum) ==> {
            &&& partition_of(pages, size, minimum).last() > size
            &&& partition_of(pages, size, minimum).last() == size + sheets_for(
                natural_remainder(pages, size),
            )
            &&& partition_of(pages, size, minimum).len() == natural_signatures(pages, size)
        },
        !merges(pages, size, minimum) ==> {
            &&& partition_of(pages, size, minimum).last() == sheets_for(
                natural_remainder(pages, size),
            )
            &&& partition_of(pages, size, minimum).len() == natural_signatures(pages, size) + 1
        },
{
    lemma_partition_split(pages, size, minimum);
    lemma_fundamental_div_mod(pages, 4 * size);
}

/// The shape of a partition: it is never empty, every signature but the
/// last has the preferred size, and the last one has no sheet at all
/// exactly where the pages fill whole signatures of the preferred size.
pub proof fn lemma_partition_shape(pages: int, size: int, minimum: int)
    requires
        pages >= 0,
        size > 0,
        minimum >= 0,
    ensures
        partition_of(pages, size, minimum).len() >= 1,
        forall|i: int|
            0 <= i < partition_of(pages, size, minimum).len() - 1 ==> partition_of(
                pages,
                size,
                minimum,
            )[i] == size,
        forall|i: int|
            0 <= i < partition_of(pages, size, minimum).len() ==> partition_of(
                pages,
                size,
                minimum,
            )[i] >= 0,
        partition_of(pages, size, minimum).last() == 0 <==> natural_remainder(pages, size) == 0,
{
    lemma_partition_split(pages, size, minimum);
    lemma_fundamental_div_mod(pages, 4 * size);
}

} // verus!
