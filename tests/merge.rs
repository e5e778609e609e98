use bigwigmerge::chroms::{chrom_sizes, inputs_with_chrom, sort_by_name, tag_chrom, ChromInfo, MergeError};
use bigwigmerge::merge::{merge_all, merge_sections_many};
use bigwigmerge::section::{is_sorted_disjoint, merge_into, ValueSection};

fn sec(start: u32, end: u32, value: i64) -> ValueSection {
    ValueSection { start, end, value }
}

#[test]
fn test_merge_into() {
    let one = sec(10, 20, 3);
    let two = sec(12, 18, 5);
    let (one, two, three, overhang) = merge_into(one, two);
    println!("merge_into: {:?} {:?} {:?} {:?}", one, two, three, overhang);
    assert_eq!(one, sec(10, 12, 3));
    assert_eq!(two, Some(sec(12, 18, 8)));
    assert_eq!(three, Some(sec(18, 20, 3)));
    assert_eq!(overhang, None);
}

#[test]
fn split_equal_sections_sums() {
    assert_eq!(merge_into(sec(0, 10, 4), sec(0, 10, 6)), (sec(0, 10, 10), None, None, None));
}

#[test]
fn split_shorter_first_leaves_overhang() {
    assert_eq!(merge_into(sec(0, 5, 4), sec(0, 10, 6)), (sec(0, 5, 10), None, None, Some(sec(5, 10, 6))));
}

#[test]
fn split_absorbs_contained_zero() {
    assert_eq!(merge_into(sec(0, 10, 4), sec(2, 8, 0)), (sec(0, 10, 4), None, None, None));
    assert_eq!(merge_into(sec(2, 8, 0), sec(0, 10, 4)), (sec(0, 10, 4), None, None, None));
}

#[test]
fn split_partial_overlap_right() {
    assert_eq!(
        merge_into(sec(0, 6, 1), sec(4, 10, 2)),
        (sec(0, 4, 1), Some(sec(4, 6, 3)), None, Some(sec(6, 10, 2)))
    );
}

#[test]
fn split_partial_overlap_left() {
    assert_eq!(
        merge_into(sec(4, 10, 1), sec(0, 6, 2)),
        (sec(0, 4, 2), Some(sec(4, 6, 3)), Some(sec(6, 10, 1)), None)
    );
}

#[test]
fn split_zero_zero_asymmetry() {
    assert_eq!(merge_into(sec(0, 6, 0), sec(4, 10, 0)), (sec(0, 6, 0), None, None, Some(sec(6, 10, 0))));
    assert_eq!(merge_into(sec(4, 10, 0), sec(0, 6, 0)), (sec(0, 10, 0), None, None, None));
}

#[test]
fn merge_contained_section() {
    let merged = merge_all(vec![vec![sec(10, 20, 3)], vec![sec(12, 18, 5)]]);
    assert_eq!(merged, vec![sec(10, 12, 3), sec(12, 18, 8), sec(18, 20, 3)]);
}

#[test]
fn merge_absorbs_zero_source() {
    let merged = merge_all(vec![vec![sec(0, 10, 10)], vec![sec(0, 10, 0)]]);
    assert_eq!(merged, vec![sec(0, 10, 10)]);
}

#[test]
fn merge_two_runs_against_one() {
    let merged = merge_all(vec![vec![sec(0, 5, 10), sec(5, 10, 20)], vec![sec(3, 8, 5)]]);
    assert_eq!(merged, vec![sec(0, 3, 10), sec(3, 5, 15), sec(5, 8, 25), sec(8, 10, 20)]);
}

#[test]
fn merge_disjoint_sources() {
    let merged = merge_all(vec![vec![sec(0, 10, 10)], vec![sec(20, 30, 20)]]);
    assert_eq!(merged, vec![sec(0, 10, 10), sec(20, 30, 20)]);
}

#[test]
fn merge_three_identical_sources() {
    let merged = merge_all(vec![vec![sec(0, 4, 10)], vec![sec(0, 4, 10)], vec![sec(0, 4, 10)]]);
    assert_eq!(merged, vec![sec(0, 4, 30)]);
}

#[test]
fn merge_no_sources_and_empty_sources() {
    assert_eq!(merge_all(vec![]), vec![]);
    assert_eq!(merge_all(vec![vec![], vec![]]), vec![]);
}

#[test]
fn merge_zero_section_covered_by_longer_one() {
    let merged = merge_all(vec![vec![sec(5, 6, 0)], vec![sec(7, 8, 2)], vec![sec(0, 10, 1)]]);
    assert_eq!(merged, vec![sec(0, 6, 1), sec(6, 7, 1), sec(7, 8, 3), sec(8, 10, 1)]);
}

fn sorted_and_disjoint(v: &[ValueSection]) -> bool {
    v.iter().all(|s| s.start < s.end) && v.windows(2).all(|w| w[0].end <= w[1].start)
}

fn value_at(v: &[ValueSection], p: u32) -> i64 {
    v.iter().filter(|s| s.start <= p && p < s.end).map(|s| s.value).sum()
}

fn sample_sources() -> Vec<Vec<ValueSection>> {
    vec![
        vec![sec(0, 5, 1), sec(7, 12, 2), sec(12, 20, 0), sec(25, 30, 4)],
        vec![sec(3, 9, 3), sec(10, 11, 5), sec(15, 28, 6)],
        vec![sec(1, 2, 7), sec(4, 26, 0), sec(29, 40, 8)],
    ]
}

#[test]
fn merged_output_is_sorted_and_sums_pointwise() {
    let sources = sample_sources();
    let merged = merge_all(sources.clone());
    assert!(sorted_and_disjoint(&merged));
    for p in 0..45 {
        let expected: i64 = sources.iter().map(|s| value_at(s, p)).sum();
        assert_eq!(value_at(&merged, p), expected, "position {}", p);
    }
}

#[test]
fn merge_is_deterministic() {
    assert_eq!(merge_all(sample_sources()), merge_all(sample_sources()));
}

#[test]
fn merge_order_of_sources_keeps_sums() {
    let forward = merge_all(sample_sources());
    let mut reversed_sources = sample_sources();
    reversed_sources.reverse();
    let backward = merge_all(reversed_sources);
    assert!(sorted_and_disjoint(&backward));
    for p in 0..45 {
        assert_eq!(value_at(&forward, p), value_at(&backward, p));
    }
}

#[test]
fn iterator_hands_out_sections_lazily() {
    let mut it = merge_sections_many(vec![vec![sec(0, 5, 1), sec(5, 10, 2)], vec![sec(3, 8, 1)]]);
    let mut out = vec![];
    while let Some(s) = it.next() {
        out.push(s);
    }
    assert_eq!(out, vec![sec(0, 3, 1), sec(3, 5, 2), sec(5, 8, 3), sec(8, 10, 2)]);
    assert_eq!(it.next(), None);
}

fn chrom(name: &str, length: u32) -> ChromInfo {
    ChromInfo { name: name.to_string(), length }
}

#[test]
fn chrom_length_mismatch_is_a_conflict() {
    let files = vec![vec![chrom("chr1", 100)], vec![chrom("chr1", 200)]];
    match chrom_sizes(&files) {
        Err(MergeError::MetadataConflict { chrom }) => assert_eq!(chrom, "chr1"),
        Ok(_) => panic!("expected a conflict"),
    }
}

#[test]
fn chrom_sizes_takes_the_union() {
    let files = vec![
        vec![chrom("chr2", 50), chrom("chr1", 100)],
        vec![chrom("chr1", 100), chrom("chrX", 70)],
    ];
    let sizes = chrom_sizes(&files).ok().expect("no conflict");
    let got: Vec<(String, u32)> = sizes.into_iter().map(|c| (c.name, c.length)).collect();
    assert_eq!(got, vec![("chr2".to_string(), 50), ("chr1".to_string(), 100), ("chrX".to_string(), 70)]);
}

#[test]
fn tagging_keeps_sections() {
    let tagged = tag_chrom(&"chr7".to_string(), &vec![sec(1, 2, 3), sec(4, 5, 6)]);
    assert_eq!(tagged.len(), 2);
    assert_eq!(tagged[1].chrom, "chr7");
    assert_eq!((tagged[1].start, tagged[1].end, tagged[1].value), (4, 5, 6));
}

#[test]
fn sortedness_check() {
    assert!(is_sorted_disjoint(&vec![]));
    assert!(is_sorted_disjoint(&vec![sec(0, 5, 1), sec(5, 9, 2), sec(12, 13, 0)]));
    assert!(!is_sorted_disjoint(&vec![sec(0, 5, 1), sec(4, 9, 2)]));
    assert!(!is_sorted_disjoint(&vec![sec(0, 5, 1), sec(7, 7, 2)]));
    assert!(!is_sorted_disjoint(&vec![sec(6, 9, 1), sec(0, 5, 2)]));
}

#[test]
fn chromosomes_sort_by_name() {
    let sorted = sort_by_name(vec![chrom("chrX", 7), chrom("chr10", 3), chrom("chr1", 9), chrom("chr2", 4)]);
    let names: Vec<&str> = sorted.iter().map(|c| c.name.as_str()).collect();
    assert_eq!(names, vec!["chr1", "chr10", "chr2", "chrX"]);
    assert_eq!(sorted[0].length, 9);
}

#[test]
fn inputs_declaring_a_chromosome() {
    let files = vec![
        vec![chrom("chr1", 10)],
        vec![chrom("chr2", 20)],
        vec![chrom("chr2", 20), chrom("chr1", 10)],
    ];
    assert_eq!(inputs_with_chrom(&files, &"chr1".to_string()), vec![0, 2]);
    assert_eq!(inputs_with_chrom(&files, &"chr3".to_string()), Vec::<usize>::new());
}
