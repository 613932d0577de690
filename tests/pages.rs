use manga_core::pages::pages_in_order;

fn block(n: u64, urls: &[&str]) -> (u64, Vec<String>) {
    (n, urls.iter().map(|u| u.to_string()).collect())
}

#[test]
fn blocks_ordered_by_number() {
    let pages = vec![block(2, &["c", "d"]), block(0, &["a"]), block(1, &["b"])];
    assert_eq!(pages_in_order(&pages), vec!["a", "b", "c", "d"]);
}

#[test]
fn equal_numbers_keep_given_order() {
    let pages = vec![block(1, &["x"]), block(0, &["a"]), block(1, &["y", "z"])];
    assert_eq!(pages_in_order(&pages), vec!["a", "x", "y", "z"]);
}

#[test]
fn no_blocks_no_images() {
    assert!(pages_in_order(&vec![]).is_empty());
    assert!(pages_in_order(&vec![block(3, &[])]).is_empty());
}
