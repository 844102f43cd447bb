use mangix::names::{display_name, file_name, folder, is_archive, is_image, wanted, ArchiveKind};

#[test]
fn archive_kinds_by_extension() {
    assert_eq!(is_archive("x.CBZ"), Some(ArchiveKind::Zip));
    assert_eq!(is_archive("x.zip"), Some(ArchiveKind::Zip));
    assert_eq!(is_archive("x.cbr"), Some(ArchiveKind::External));
    assert_eq!(is_archive("x.Rar"), Some(ArchiveKind::External));
    assert_eq!(is_archive("x.cb7"), Some(ArchiveKind::External));
    assert_eq!(is_archive("x.7z"), Some(ArchiveKind::External));
    assert_eq!(is_archive("/a/b.PDF"), Some(ArchiveKind::Pdf));
    assert_eq!(is_archive("x.tar"), None);
    assert_eq!(is_archive("noext"), None);
    assert_eq!(is_archive(".cbz"), None);
}

#[test]
fn image_names() {
    for n in ["a.jpg", "a.jpeg", "a.jpe", "a.PNG", "a.gif", "a.webp", "a.bmp", "a.tif", "a.tiff"] {
        assert!(is_image(n), "{n}");
    }
    assert!(!is_image("jpg"));
    assert!(!is_image("a."));
    assert!(!is_image("a.jpg.txt"));
    assert!(!is_image("dir.v2/page"));
}

#[test]
fn junk_is_not_wanted() {
    assert!(wanted("a/b.png"));
    assert!(!wanted("a/.b.png"));
    assert!(!wanted(".cover.jpg"));
    assert!(!wanted("x/__MACOSX/p1.jpg"));
    assert!(!wanted("a/b.txt"));
}

#[test]
fn display_names_use_the_stem() {
    assert_eq!(display_name("/comics/Vol 1.cbz"), "Vol 1");
    assert_eq!(display_name("/comics/Saga"), "Saga");
    assert_eq!(display_name("/comics/a.b.cbr"), "a.b");
    assert_eq!(display_name("/"), "/");
}

#[test]
fn folders_of_loose_images() {
    assert_eq!(folder("/c/p1.jpg"), "/c");
    assert_eq!(folder("p1.jpg"), ".");
    assert_eq!(folder("/"), ".");
}

#[test]
fn file_names() {
    assert_eq!(file_name("/a/b.jpg"), Some("b.jpg".to_string()));
    assert_eq!(file_name("/"), None);
    assert_eq!(file_name("/a/.."), None);
}
