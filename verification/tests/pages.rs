use reader_core::pages::settle_page;

#[test]
fn page_total_is_at_least_one() {
    assert_eq!(settle_page(0, 0), (1, 0));
    assert_eq!(settle_page(0, 5), (1, 0));
}

#[test]
fn page_past_the_end_moves_to_last_page() {
    assert_eq!(settle_page(4, 4), (4, 3));
    assert_eq!(settle_page(4, 100), (4, 3));
    assert_eq!(settle_page(4, usize::MAX), (4, 3));
}

#[test]
fn page_inside_stays() {
    assert_eq!(settle_page(4, 0), (4, 0));
    assert_eq!(settle_page(4, 3), (4, 3));
}
