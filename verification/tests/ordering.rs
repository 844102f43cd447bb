use mangix::book::{sort_entries, Entry};
use mangix::names::{is_image, wanted};
use mangix::natural::natural_cmp;
use std::cmp::Ordering;

#[test]
fn numbers_sort_by_value() {
    let mut v = vec!["p10.jpg", "p9.jpg", "p1.jpg", "p02.jpg"];
    v.sort_by(|a, b| natural_cmp(a, b));
    assert_eq!(v, vec!["p1.jpg", "p02.jpg", "p9.jpg", "p10.jpg"]);
}

#[test]
fn chapters_before_pages() {
    let mut v = vec!["ch2/p1.png", "ch10/p1.png", "ch1/p2.png"];
    v.sort_by(|a, b| natural_cmp(a, b));
    assert_eq!(v, vec!["ch1/p2.png", "ch2/p1.png", "ch10/p1.png"]);
}

#[test]
fn extensions_are_recognised() {
    assert!(is_image("a/b/PAGE01.JPG"));
    assert!(!is_image("ComicInfo.xml"));
    assert!(!wanted("__MACOSX/._page1.jpg"));
}

#[test]
fn dashed_numbers_compare_part_by_part() {
    assert_eq!(natural_cmp("1-2", "1-1"), Ordering::Greater);
    assert_eq!(natural_cmp("1-1", "1-10"), Ordering::Less);
}

#[test]
fn leading_zeros_do_not_count() {
    assert_eq!(natural_cmp("p02", "p2"), Ordering::Equal);
    assert_eq!(natural_cmp("p2", "p02"), Ordering::Equal);
}

#[test]
fn natural_order_is_reflexive_and_antisymmetric_on_examples() {
    for a in ["", "a", "page9", "page10", "x-1-2"] {
        assert_eq!(natural_cmp(a, a), Ordering::Equal);
        for b in ["", "a", "page9", "page10", "x-1-2"] {
            assert_eq!(natural_cmp(a, b), natural_cmp(b, a).reverse());
        }
    }
}

#[test]
fn shorter_text_comes_first_when_one_is_a_prefix() {
    assert_eq!(natural_cmp("page", "page1"), Ordering::Less);
    assert_eq!(natural_cmp("abc", "ab"), Ordering::Greater);
}

#[test]
fn long_digit_runs_saturate() {
    let a = "9".repeat(50);
    let b = "9".repeat(60);
    assert_eq!(natural_cmp(&a, &b), Ordering::Equal);
}

#[test]
fn bytes_compare_without_case_folding() {
    assert_eq!(natural_cmp("B", "a"), Ordering::Less);
}

#[test]
fn entries_sort_case_insensitively_and_stably() {
    let mut v = vec![
        Entry::File("B.jpg".to_string()),
        Entry::File("a.jpg".to_string()),
        Entry::File("p10.jpg".to_string()),
        Entry::File("A.jpg".to_string()),
        Entry::File("p9.jpg".to_string()),
    ];
    sort_entries(&mut v);
    let keys: Vec<String> = v.iter().map(|e| e.sort_key()).collect();
    assert_eq!(keys, vec!["a.jpg", "A.jpg", "B.jpg", "p9.jpg", "p10.jpg"]);
}

#[test]
fn pdf_keys_are_zero_padded() {
    assert_eq!(Entry::Pdf { index: 7 }.sort_key(), "00000007");
    assert_eq!(Entry::Pdf { index: 123456789 }.sort_key(), "123456789");
    let z = Entry::Zip { index: 3, name: "ch1/p1.png".to_string() };
    assert_eq!(z.sort_key(), "ch1/p1.png");
}

#[test]
fn pdf_pages_keep_their_order() {
    let mut v: Vec<Entry> = (0..12).rev().map(|index| Entry::Pdf { index }).collect();
    sort_entries(&mut v);
    let order: Vec<usize> = v
        .iter()
        .map(|e| match e {
            Entry::Pdf { index } => *index,
            _ => usize::MAX,
        })
        .collect();
    assert_eq!(order, (0..12).collect::<Vec<_>>());
}

#[test]
fn a_number_between_the_same_text_compares_by_value() {
    assert_eq!(natural_cmp("vol 007 end", "vol 12 end"), Ordering::Less);
    assert_eq!(natural_cmp("x100y", "x99y"), Ordering::Greater);
    assert_eq!(natural_cmp("x0100y", "x100y"), Ordering::Equal);
}

#[test]
fn names_without_digits_compare_as_bytes() {
    for (a, b) in [("ab", "abc"), ("b", "ab"), ("Zed", "apple"), ("", "a"), ("same", "same")] {
        assert_eq!(natural_cmp(a, b), a.as_bytes().cmp(b.as_bytes()));
    }
}
