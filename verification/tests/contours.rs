use pullauta::contours::{check_obj_in, keep_contour_point, new_curves, trace_polylines};

#[test]
fn segments_are_recorded_at_both_ends() {
    let mut obj = Vec::new();
    let mut curves = new_curves();
    check_obj_in(&mut obj, &mut curves, 0, 100, 50, 50);
    assert_eq!(obj, vec![(0, 50, 1), (100, 50, 1)]);
    assert_eq!(curves[&(0, 50, 1)], (100, 50));
    assert_eq!(curves[&(100, 50, 1)], (0, 50));
    // a second segment at the same point takes slot 2
    check_obj_in(&mut obj, &mut curves, 0, 0, 50, 120);
    assert_eq!(obj[2], (0, 50, 2));
    assert_eq!(curves[&(0, 50, 2)], (0, 120));
    assert_eq!(curves[&(0, 120, 1)], (0, 50));
    // a degenerate segment is ignored
    check_obj_in(&mut obj, &mut curves, 7, 7, 8, 8);
    assert_eq!(obj.len(), 4);
}

#[test]
fn a_closed_ring_is_one_polyline() {
    let mut obj = Vec::new();
    let mut curves = new_curves();
    // a square ring through four points
    check_obj_in(&mut obj, &mut curves, 0, 100, 0, 0);
    check_obj_in(&mut obj, &mut curves, 100, 100, 0, 100);
    check_obj_in(&mut obj, &mut curves, 100, 0, 100, 100);
    check_obj_in(&mut obj, &mut curves, 0, 0, 100, 0);
    let lines = trace_polylines(&obj, &mut curves);
    assert_eq!(lines, vec![vec![(0, 0), (100, 0), (100, 100), (0, 100), (0, 0)]]);
    for k in &obj {
        assert!(!curves.contains_key(k));
    }
}

#[test]
fn separate_segments_give_separate_polylines() {
    let mut obj = Vec::new();
    let mut curves = new_curves();
    check_obj_in(&mut obj, &mut curves, 0, 100, 0, 0);
    check_obj_in(&mut obj, &mut curves, 100, 200, 0, 0);
    check_obj_in(&mut obj, &mut curves, 500, 600, 500, 500);
    let lines = trace_polylines(&obj, &mut curves);
    assert_eq!(lines, vec![vec![(0, 0), (100, 0), (200, 0)], vec![(500, 500), (600, 500)]]);
}

#[test]
fn nothing_to_trace() {
    let mut curves = new_curves();
    assert!(trace_polylines(&Vec::new(), &mut curves).is_empty());
}

#[test]
fn contour_thinning() {
    // contours of up to 13 points keep every point
    assert!((0..13).all(|i| keep_contour_point(i, 13)));
    let kept14: Vec<usize> = (0..14).filter(|&i| keep_contour_point(i, 14)).collect();
    assert_eq!(kept14, vec![0, 1, 2, 3, 4, 6, 7, 8, 9, 10, 11, 12, 13]);
    // longer ones drop every other interior point away from the ends
    let kept: Vec<usize> = (0..20).filter(|&i| keep_contour_point(i, 20)).collect();
    assert_eq!(kept, vec![0, 1, 2, 3, 4, 6, 8, 10, 12, 13, 14, 15, 16, 17, 18, 19]);
}
