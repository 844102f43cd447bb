use mangix::progress::{bookmark_key, last_page_in, remember_in, CAP};

#[test]
fn a_bookmark_reads_back() {
    let text = remember_in("", "/a.cbz", 5);
    assert_eq!(text, "5\t/a.cbz\n");
    assert_eq!(last_page_in(&text, "/a.cbz"), Some(5));
    assert_eq!(last_page_in(&text, "/b.cbz"), None);
}

#[test]
fn the_newest_bookmark_goes_first_and_replaces_the_stale_one() {
    let text = remember_in("3\t/a.cbz\n7\t/b.cbz\n", "/a.cbz", 9);
    assert_eq!(text, "9\t/a.cbz\n7\t/b.cbz\n");
    assert_eq!(last_page_in(&text, "/a.cbz"), Some(9));
    assert_eq!(last_page_in(&text, "/b.cbz"), Some(7));
}

#[test]
fn lines_without_a_tab_are_dropped() {
    let text = remember_in("junk\n7\t/b\n\n", "/a", 1);
    assert_eq!(text, "1\t/a\n7\t/b\n");
}

#[test]
fn the_file_is_capped() {
    let mut previous = String::new();
    for i in 0..600 {
        previous.push_str(&format!("{i}\t/p{i}\n"));
    }
    let text = remember_in(&previous, "/new", 4);
    assert_eq!(text.lines().count(), CAP);
    assert_eq!(text.lines().next(), Some("4\t/new"));
    assert_eq!(text.lines().last(), Some("498\t/p498"));
    assert_eq!(last_page_in(&text, "/p10"), Some(10));
    assert_eq!(last_page_in(&text, "/p499"), None);
}

#[test]
fn the_first_matching_line_decides() {
    let text = "2\t/a\n8\t/a\n";
    assert_eq!(last_page_in(text, "/a"), Some(2));
    assert_eq!(last_page_in("x\t/a\n8\t/a\n", "/a"), None);
    assert_eq!(last_page_in("4\t/a\r\n", "/a"), Some(4));
    assert_eq!(last_page_in("+4\t/a\n", "/a"), Some(4));
}

#[test]
fn keys_have_no_tabs_or_newlines() {
    assert_eq!(bookmark_key("a\tb\nc"), "a b c");
    assert_eq!(bookmark_key("/plain/path.cbz"), "/plain/path.cbz");
}

#[test]
fn other_bookmarks_survive_a_write() {
    let before = "1\t/x\n2\t/y\n";
    let after = remember_in(before, "/z", 3);
    assert_eq!(last_page_in(&after, "/x"), Some(1));
    assert_eq!(last_page_in(&after, "/y"), Some(2));
    assert_eq!(last_page_in(&after, "/z"), Some(3));
}
