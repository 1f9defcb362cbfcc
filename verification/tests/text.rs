use geolis::text::{decimal_text, push_count, with_count};

#[test]
fn decimal_text_matches_to_string() {
    for n in [0usize, 7, 10, 99, 100, 12345, usize::MAX] {
        assert_eq!(decimal_text(n), n.to_string());
    }
}

#[test]
fn counts_are_appended_in_base_ten() {
    assert_eq!(with_count("got ", 42), "got 42");
    let mut s = String::from("a");
    push_count(&mut s, 0);
    push_count(&mut s, 305);
    assert_eq!(s, "a0305");
}
