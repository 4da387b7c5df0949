use std::collections::BTreeSet;

use pullauta::plan::{
    is_point_cloud_extension, mapping_from_overlaps, select_files_to_process, InputFileIndex, NaivePlanner,
    Operation, Planner,
};

fn deps_of(mapping: &pullauta::plan::Mapping, k: usize) -> BTreeSet<usize> {
    mapping[&k].iter().copied().collect()
}

#[test]
fn mapping_follows_overlaps() {
    let overlaps = vec![
        vec![true, true, false],
        vec![false, true, true],
        vec![true, false, false],
    ];
    let mapping = mapping_from_overlaps(&overlaps);
    assert_eq!(mapping.len(), 3);
    assert_eq!(deps_of(&mapping, 0), BTreeSet::from([1]));
    assert_eq!(deps_of(&mapping, 1), BTreeSet::from([2]));
    assert_eq!(deps_of(&mapping, 2), BTreeSet::from([0]));
}

#[test]
fn mapping_of_no_files_is_empty() {
    assert!(mapping_from_overlaps(&vec![]).is_empty());
}

#[test]
fn files_with_output_are_skipped() {
    let overlaps = vec![vec![true; 4]; 4];
    let mut mapping = mapping_from_overlaps(&overlaps);
    let files = select_files_to_process(&vec![false, true, false, true], &mut mapping);
    assert_eq!(files, vec![InputFileIndex(0), InputFileIndex(2)]);
    let keys: BTreeSet<usize> = mapping.keys().copied().collect();
    assert_eq!(keys, BTreeSet::from([0, 2]));
    assert_eq!(deps_of(&mapping, 0), BTreeSet::from([1, 2, 3]));
}

#[test]
fn naive_planner_processes_each_tile_once() {
    let overlaps = vec![
        vec![true, true, false],
        vec![true, true, true],
        vec![false, true, true],
    ];
    let mapping = mapping_from_overlaps(&overlaps);
    let mut planner = NaivePlanner::new(mapping);
    let mut processed = Vec::new();
    while let Some(ops) = planner.next_operation() {
        let tile = match ops.last().unwrap() {
            Operation::Process { tile } => *tile,
            other => panic!("last operation is not a Process: {other:?}"),
        };
        match &ops[0] {
            Operation::Extract { from, to } => {
                assert_eq!(*from, tile);
                assert_eq!(to, &vec![tile]);
            }
            other => panic!("first operation is not an Extract: {other:?}"),
        }
        let mut deps = BTreeSet::new();
        for op in &ops[1..ops.len() - 1] {
            match op {
                Operation::Extract { from, to } => {
                    assert_eq!(to, &vec![tile]);
                    assert!(deps.insert(from.0));
                }
                other => panic!("unexpected operation {other:?}"),
            }
        }
        let expected: BTreeSet<usize> = (0..3).filter(|&j| j != tile.0 && overlaps[tile.0][j]).collect();
        assert_eq!(deps, expected);
        processed.push(tile.0);
    }
    processed.sort();
    assert_eq!(processed, vec![0, 1, 2]);
    assert!(planner.next_operation().is_none());
}

#[test]
fn point_cloud_extensions() {
    assert!(is_point_cloud_extension("laz"));
    assert!(is_point_cloud_extension("las"));
    assert!(!is_point_cloud_extension("LAZ"));
    assert!(!is_point_cloud_extension("xyz"));
    assert!(!is_point_cloud_extension(""));
    assert!(!is_point_cloud_extension("lazz"));
}

#[test]
fn symmetric_overlaps_give_mutual_dependencies() {
    let overlaps = vec![
        vec![true, true, false, true],
        vec![true, true, true, false],
        vec![false, true, true, false],
        vec![true, false, false, true],
    ];
    let mapping = mapping_from_overlaps(&overlaps);
    for i in 0..4 {
        for j in 0..4 {
            assert_eq!(deps_of(&mapping, i).contains(&j), deps_of(&mapping, j).contains(&i));
        }
    }
}
