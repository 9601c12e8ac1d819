use media_manager::parse::mask::Consumption;

#[test]
fn residual_ranges_around_a_consumed_middle() {
    let text = "Movie Title 1080p Extra";
    let mut c = Consumption::new(text);
    let start = text.find("1080p").unwrap();
    c.mark(start..start + 5);
    let ranges = c.residual_ranges();
    let strs: Vec<&str> = ranges.iter().map(|r| &text[r.clone()]).collect();
    assert_eq!(strs, vec!["Movie Title ", " Extra"]);
}

#[test]
fn mark_out_of_bounds_does_not_panic() {
    let mut c = Consumption::new("abc");
    c.mark(0..1000);
    assert!(c.residual_ranges().is_empty());
}
