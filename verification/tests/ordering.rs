use tidy::order::{
    clone_words, compare_words, merge_ascending, sort_and_dedup, sort_range, WordOrder,
};

fn words(items: &[&str]) -> Vec<String> {
    items.iter().map(|w| w.to_string()).collect()
}

#[test]
fn words_compare_by_code_point() {
    assert_eq!(compare_words("apple", "apple"), WordOrder::Same);
    assert_eq!(compare_words("apple", "apples"), WordOrder::Before);
    assert_eq!(compare_words("apples", "apple"), WordOrder::After);
    assert_eq!(compare_words("Zebra", "apple"), WordOrder::Before);
    assert_eq!(compare_words("b", "abc"), WordOrder::After);
    assert_eq!(compare_words("", "a"), WordOrder::Before);
    assert_eq!(compare_words("", ""), WordOrder::Same);
    assert_eq!(compare_words("z", "\u{e9}"), WordOrder::Before);
    assert_eq!(compare_words("\u{1f600}", "\u{ffff}"), WordOrder::After);
}

#[test]
fn comparison_agrees_with_the_standard_order() {
    let samples = words(&["", "a", "A", "ab", "b", "\u{e9}", "\u{ffff}", "\u{10000}", "10", "9"]);
    for a in &samples {
        for b in &samples {
            let expected = match a.cmp(b) {
                std::cmp::Ordering::Less => WordOrder::Before,
                std::cmp::Ordering::Equal => WordOrder::Same,
                std::cmp::Ordering::Greater => WordOrder::After,
            };
            assert_eq!(compare_words(a, b), expected);
        }
    }
}

#[test]
fn sort_and_dedup_rewrites_the_list_and_returns_a_copy() {
    let mut list = words(&["pear", "apple", "fig", "apple", "Pear", "fig", "date"]);
    let out = sort_and_dedup(&mut list);
    assert_eq!(out, words(&["Pear", "apple", "date", "fig", "pear"]));
    assert_eq!(list, out);
}

#[test]
fn sort_and_dedup_of_nothing_and_of_one() {
    let mut none: Vec<String> = Vec::new();
    assert_eq!(sort_and_dedup(&mut none), Vec::<String>::new());
    let mut one = words(&["only"]);
    assert_eq!(sort_and_dedup(&mut one), words(&["only"]));
    let mut same = words(&["x", "x", "x"]);
    assert_eq!(sort_and_dedup(&mut same), words(&["x"]));
}

#[test]
fn sort_and_dedup_agrees_with_the_standard_sort() {
    let mut list: Vec<String> = Vec::new();
    let mut seed: u32 = 12345;
    for _ in 0..500 {
        seed = seed.wrapping_mul(1103515245).wrapping_add(12345);
        list.push(format!("w{}", (seed >> 16) % 200));
    }
    let mut expected = list.clone();
    expected.sort();
    expected.dedup();
    assert_eq!(sort_and_dedup(&mut list), expected);
}

#[test]
fn sort_range_sorts_a_stretch() {
    let list = words(&["z", "c", "b", "c", "a", "y"]);
    assert_eq!(sort_range(&list, 1, 5), words(&["a", "b", "c"]));
    assert_eq!(sort_range(&list, 2, 2), Vec::<String>::new());
}

#[test]
fn merge_keeps_one_of_each() {
    let a = words(&["a", "c", "e"]);
    let b = words(&["b", "c", "d", "f"]);
    assert_eq!(merge_ascending(&a, &b), words(&["a", "b", "c", "d", "e", "f"]));
    assert_eq!(merge_ascending(&a, &Vec::new()), a);
}

#[test]
fn clone_words_copies() {
    let list = words(&["one", "two"]);
    assert_eq!(clone_words(&list), list);
}
