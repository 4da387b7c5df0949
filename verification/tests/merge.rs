use pullauta::line_join::join_plan;
use pullauta::merge::{
    dxf_merge_suffix_name, group_dxf_files, png_merge_input, png_merge_output_name, vege_merge_input,
    vege_merge_output_name, DXF_MERGE_KINDS,
};

#[test]
fn vegetation_mosaic_inputs() {
    assert!(vege_merge_input("a_vege.png", false));
    assert!(!vege_merge_input("a_undergrowth.png", false));
    assert!(vege_merge_input("a_undergrowth.png", true));
    assert!(!vege_merge_input("a_vege_bit.png", true));
    assert!(!vege_merge_input("a.png", true));
    assert_eq!(vege_merge_output_name(false), "merged_vege");
    assert_eq!(vege_merge_output_name(true), "merged_vege_undergrowth");
}

#[test]
fn map_mosaic_inputs() {
    assert!(png_merge_input("tile1.png", false));
    assert!(!png_merge_input("tile1.png", true));
    assert!(png_merge_input("tile1_depr.png", true));
    assert!(!png_merge_input("tile1_depr.png", false));
    assert!(!png_merge_input("tile1_vege.png", false));
    assert!(!png_merge_input("tile1_vege_bit.png", false));
    assert!(!png_merge_input("tile1_undergrowth.png", false));
    assert!(!png_merge_input("tile1_undergrowth_bit.png", false));
    assert!(!png_merge_input("tile1.jpg", false));
    assert_eq!(png_merge_output_name(false), "merged");
    assert_eq!(png_merge_output_name(true), "merged_depr");
}

#[test]
fn vector_files_are_grouped_by_kind() {
    let names = vec![
        "t1_contours.dxf.bin",
        "t1_c2g.dxf.bin",
        "t2_contours.dxf.bin",
        "t1_detected.dxf.bin",
        "t1_contours.dxf",
        "t3_formlines.dxf.bin",
        "t3_dotknolls.dxf.bin",
        "t3_basemap.dxf.bin",
        "t3_c3g.dxf.bin",
    ];
    let groups = group_dxf_files(&names);
    assert_eq!(groups.len(), DXF_MERGE_KINDS);
    assert_eq!(groups, vec![vec![0, 2], vec![1], vec![7], vec![8], vec![5], vec![6], vec![3]]);
    let kinds: Vec<&str> = (0..DXF_MERGE_KINDS).map(dxf_merge_suffix_name).collect();
    assert_eq!(kinds, vec!["contours", "c2g", "basemap", "c3g", "formlines", "dotknolls", "detected"]);
}

#[test]
fn lines_meeting_at_ends_are_joined() {
    // line 1: a -> b, line 2: c -> b (reversed join), line 3: c -> d
    let a = (0, 0);
    let b = (10, 0);
    let c = (20, 0);
    let d = (30, 0);
    let e = (99, 99);
    let heads = vec![e, a, c, c];
    let tails = vec![e, b, b, d];
    let plan = join_plan(&heads, &tails);
    assert_eq!(plan[0], vec![(0, false)]);
    // line 1 takes line 2 reversed at b, then line 3 at c
    assert_eq!(plan[1], vec![(1, false), (2, true), (3, false)]);
    assert!(plan[2].is_empty());
    assert!(plan[3].is_empty());
}

#[test]
fn line_zero_is_never_joined_into_another() {
    let a = (0, 0);
    let b = (10, 0);
    let c = (20, 0);
    let heads = vec![a, b];
    let tails = vec![b, c];
    let plan = join_plan(&heads, &tails);
    // line 0 takes line 1 at b; nothing takes line 0
    assert_eq!(plan, vec![vec![(0, false), (1, false)], vec![]]);
    let plan = join_plan(&vec![b, a], &vec![c, b]);
    assert_eq!(plan, vec![vec![(1, false), (0, false)], vec![]]);
}

#[test]
fn nothing_to_join() {
    assert!(join_plan(&vec![], &vec![]).is_empty());
}
