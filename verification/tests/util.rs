use pullauta::util::Timing;

#[test]
fn sections_follow_each_other() {
    let mut t = Timing::start_now("job");
    assert_eq!(t.name(), "job");
    assert!(t.current_section().is_none());
    assert!(t.end_section().is_none());
    t.start_section("first");
    let (name, start1) = t.current_section().unwrap();
    assert_eq!(name, "first");
    assert!(start1 >= t.started_at());
    t.start_section("second");
    let (name, start2) = t.current_section().unwrap();
    assert_eq!(name, "second");
    assert!(start2 >= start1);
    let end = t.end_section().unwrap();
    assert!(end >= start2);
    assert!(t.current_section().is_none());
}
