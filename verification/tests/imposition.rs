use std::collections::HashSet;

use imposition::arrange::arrange_pages_with;
use imposition::params::{Placement, SignatureParams};
use imposition::partition::{blank_pages_needed, partition};
use imposition::signature::signature_with;

fn params(signature_size: usize, minimum_remainder_size: usize) -> SignatureParams {
    SignatureParams {
        signature_size,
        minimum_remainder_size,
    }
}

fn arranged(num_pages: usize, signature_size: usize, minimum_remainder_size: usize) -> Vec<Placement> {
    let mut out = Vec::new();
    arrange_pages_with(
        num_pages,
        params(signature_size, minimum_remainder_size),
        &mut out,
    );
    out
}

fn check_arrange_pages(num_pages: usize, signature_size: usize) {
    let mut pages = HashSet::new();
    let mut duplicates: Vec<usize> = Vec::new();
    for placement in arranged(num_pages, signature_size, 4) {
        if !pages.insert(placement.source) {
            duplicates.push(placement.source);
        }
    }
    let num_pages_rounded = num_pages.next_multiple_of(4);
    assert_eq!(pages.len(), num_pages_rounded);
    assert_eq!(duplicates, Vec::<usize>::new());
}

#[test]
fn signature() {
    let mut pages = [0; 16];
    let mut out = Vec::new();
    signature_with(0, 4, &mut out);
    for placement in out {
        pages[placement.destination] = placement.source;
    }
    assert_eq!(
        pages,
        [15, 0, 1, 14, 13, 2, 3, 12, 11, 4, 5, 10, 9, 6, 7, 8]
    )
}

#[test]
fn arrange_pages_26_5() {
    check_arrange_pages(26, 5);
}

#[test]
fn arrange_pages_36_5() {
    check_arrange_pages(36, 5);
}

#[test]
fn arrange_pages_40_5() {
    check_arrange_pages(40, 5);
}

#[test]
fn arrange_pages_40_6() {
    check_arrange_pages(40, 6);
}

#[test]
fn signature_issues_placements_in_sheet_order() {
    let mut out = Vec::new();
    signature_with(0, 2, &mut out);
    let issued: Vec<(usize, usize)> = out.iter().map(|p| (p.source, p.destination)).collect();
    assert_eq!(
        issued,
        vec![(7, 0), (0, 1), (1, 2), (6, 3), (5, 4), (2, 5), (3, 6), (4, 7)]
    );
}

#[test]
fn signature_of_one_sheet() {
    let mut out = Vec::new();
    signature_with(0, 1, &mut out);
    let issued: Vec<(usize, usize)> = out.iter().map(|p| (p.source, p.destination)).collect();
    assert_eq!(issued, vec![(3, 0), (0, 1), (1, 2), (2, 3)]);
}

#[test]
fn signature_with_offset_stays_in_its_pages() {
    let mut out = Vec::new();
    signature_with(8, 2, &mut out);
    let issued: Vec<(usize, usize)> = out.iter().map(|p| (p.source, p.destination)).collect();
    assert_eq!(
        issued,
        vec![
            (15, 8),
            (8, 9),
            (9, 10),
            (14, 11),
            (13, 12),
            (10, 13),
            (11, 14),
            (12, 15)
        ]
    );
}

#[test]
fn signature_without_sheets_issues_nothing() {
    let mut out = Vec::new();
    signature_with(0, 0, &mut out);
    assert!(out.is_empty());
    signature_with(12, 0, &mut out);
    assert!(out.is_empty());
}

#[test]
fn signature_appends_after_what_was_issued() {
    let kept = Placement {
        source: 99,
        destination: 98,
    };
    let mut out = vec![kept];
    signature_with(4, 1, &mut out);
    assert_eq!(out.len(), 5);
    assert_eq!(out[0], kept);
    assert_eq!(
        out[1],
        Placement {
            source: 7,
            destination: 4
        }
    );
    assert_eq!(
        out[4],
        Placement {
            source: 6,
            destination: 7
        }
    );
}

#[test]
fn signature_reads_each_of_its_pages_once() {
    let mut out = Vec::new();
    signature_with(20, 7, &mut out);
    let mut sources: Vec<usize> = out.iter().map(|p| p.source).collect();
    sources.sort();
    assert_eq!(sources, (20..48).collect::<Vec<usize>>());
}

#[test]
fn partition_sample_cases() {
    assert_eq!(partition(26, params(5, 4)), vec![7]);
    assert_eq!(partition(36, params(5, 4)), vec![9]);
    assert_eq!(partition(40, params(5, 4)), vec![5, 5, 0]);
    assert_eq!(partition(40, params(6, 4)), vec![10]);
}

#[test]
fn partition_keeps_a_rest_that_is_long_enough() {
    assert_eq!(partition(48, params(5, 1)), vec![5, 5, 2]);
    assert_eq!(partition(60, params(6, 2)), vec![6, 6, 3]);
}

#[test]
fn partition_merges_a_thin_rest() {
    assert_eq!(partition(44, params(5, 1)), vec![5, 6]);
    assert_eq!(partition(56, params(6, 2)), vec![6, 8]);
    assert_eq!(partition(28, params(6, 4)), vec![7]);
}

#[test]
fn partition_never_merges_without_a_full_signature() {
    assert_eq!(partition(8, params(6, 4)), vec![2]);
    assert_eq!(partition(4, params(6, 4)), vec![1]);
}

#[test]
fn partition_with_no_minimum_never_merges() {
    assert_eq!(partition(28, params(6, 0)), vec![6, 1]);
    assert_eq!(partition(100, params(5, 0)), vec![5, 5, 5, 5, 5, 0]);
}

#[test]
fn partition_of_nothing_is_one_empty_signature() {
    assert_eq!(partition(0, params(6, 4)), vec![0]);
}

#[test]
fn partition_with_a_huge_minimum_does_not_overflow() {
    assert_eq!(partition(28, params(6, usize::MAX)), vec![7]);
    assert_eq!(partition(48, params(6, usize::MAX)), vec![6, 6, 0]);
}

#[test]
fn partition_covers_every_page() {
    for size in 1..9 {
        for minimum in 0..6 {
            for sheets in 0..40 {
                let num_pages = sheets * 4;
                let parts = partition(num_pages, params(size, minimum));
                let covered: usize = parts.iter().map(|s| s * 4).sum();
                assert_eq!(covered, num_pages);
            }
        }
    }
}

#[test]
fn remainder_merge_policy_holds() {
    for size in 1..9 {
        for minimum in 0..6 {
            for sheets in 0..40 {
                let num_pages: usize = sheets * 4;
                let full = num_pages / (size * 4);
                let rest = num_pages % (size * 4);
                let parts = partition(num_pages, params(size, minimum));
                let last = *parts.last().unwrap();
                if rest != 0 && rest <= minimum * 4 && full >= 1 {
                    assert!(last > size);
                    assert_eq!(parts.len(), full);
                } else {
                    assert_eq!(last, rest.div_ceil(4));
                    assert_eq!(parts.len(), full + 1);
                }
            }
        }
    }
}

#[test]
fn arrangement_writes_every_page_once_in_order() {
    for (num_pages, size, minimum) in [(0, 6, 4), (4, 6, 4), (40, 5, 4), (52, 3, 1), (96, 6, 4)] {
        let out = arranged(num_pages, size, minimum);
        let destinations: Vec<usize> = out.iter().map(|p| p.destination).collect();
        assert_eq!(destinations, (0..num_pages).collect::<Vec<usize>>());
        let mut sources: Vec<usize> = out.iter().map(|p| p.source).collect();
        sources.sort();
        assert_eq!(sources, (0..num_pages).collect::<Vec<usize>>());
    }
}

#[test]
fn arrangement_follows_the_partition() {
    let out = arranged(12, 1, 0);
    let issued: Vec<(usize, usize)> = out.iter().map(|p| (p.source, p.destination)).collect();
    assert_eq!(
        issued,
        vec![
            (3, 0),
            (0, 1),
            (1, 2),
            (2, 3),
            (7, 4),
            (4, 5),
            (5, 6),
            (6, 7),
            (11, 8),
            (8, 9),
            (9, 10),
            (10, 11)
        ]
    );
}

#[test]
fn arrangement_with_a_merged_last_signature() {
    let out = arranged(12, 2, 1);
    let sources: Vec<usize> = out.iter().map(|p| p.source).collect();
    assert_eq!(sources, vec![11, 0, 1, 10, 9, 2, 3, 8, 7, 4, 5, 6]);
}

#[test]
fn arrangement_appends_after_what_was_issued() {
    let kept = Placement {
        source: 1,
        destination: 2,
    };
    let mut out = vec![kept];
    arrange_pages_with(8, params(1, 0), &mut out);
    assert_eq!(out.len(), 9);
    assert_eq!(out[0], kept);
    assert_eq!(
        out[5],
        Placement {
            source: 7,
            destination: 4
        }
    );
}

#[test]
fn blank_pages_fill_the_last_sheet() {
    assert_eq!(blank_pages_needed(0), 0);
    assert_eq!(blank_pages_needed(1), 3);
    assert_eq!(blank_pages_needed(26), 2);
    assert_eq!(blank_pages_needed(27), 1);
    assert_eq!(blank_pages_needed(40), 0);
    assert_eq!(blank_pages_needed(usize::MAX), 1);
}

#[test]
fn params_are_valid_from_one_sheet_on() {
    assert!(!params(0, 4).is_valid());
    assert!(params(1, 0).is_valid());
    assert!(params(6, 4).is_valid());
    assert!(params(usize::MAX / 4, 0).is_valid());
    assert!(!params(usize::MAX / 4 + 1, 0).is_valid());
}
