use mangix::book::{
    falls_back, plan_open, scratch_name, start_page, Book, Entry, Found, Kind, OpenError, OpenPlan, ScratchDir,
    ZipItem,
};

fn files(names: &[&str]) -> Vec<Entry> {
    names.iter().map(|n| Entry::File(n.to_string())).collect()
}

fn keys(book: &Book) -> Vec<String> {
    book.entries.iter().map(|e| e.sort_key()).collect()
}

#[test]
fn a_folder_is_sorted_naturally() {
    let found = files(&["/d/p2.jpg", "/d/p10.jpg", "/d/p1.jpg"]);
    let (book, start) = Book::from_found("/d", Found::Folder(found)).unwrap();
    assert_eq!(start, 0);
    assert_eq!(book.title, "d");
    assert_eq!(book.path, "/d");
    assert_eq!(book.kind, Kind::Loose);
    assert!(book._scratch.is_none());
    assert_eq!(book.len(), 3);
    assert_eq!(keys(&book), vec!["/d/p1.jpg", "/d/p2.jpg", "/d/p10.jpg"]);
}

#[test]
fn an_empty_folder_is_refused() {
    let err = Book::from_found("/d", Found::Folder(vec![])).unwrap_err();
    assert!(matches!(&err, OpenError::NoImages(p) if p == "/d"));
    assert_eq!(err.message(), "no images in /d");
}

#[test]
fn a_zip_keeps_only_wanted_files() {
    let listing = vec![
        ZipItem { index: 0, name: "b/".to_string(), is_dir: true },
        ZipItem { index: 1, name: "__MACOSX/b/._1.png".to_string(), is_dir: false },
        ZipItem { index: 2, name: "ComicInfo.xml".to_string(), is_dir: false },
        ZipItem { index: 3, name: "b/02.png".to_string(), is_dir: false },
        ZipItem { index: 4, name: "b/1.png".to_string(), is_dir: false },
        ZipItem { index: 5, name: "b/dir.jpg".to_string(), is_dir: true },
    ];
    let (book, start) = Book::from_found("/comics/Vol 1.cbz", Found::Zip(listing)).unwrap();
    assert_eq!(start, 0);
    assert_eq!(book.title, "Vol 1");
    assert_eq!(book.kind, Kind::Zip);
    let got: Vec<(usize, String)> = book
        .entries
        .iter()
        .map(|e| match e {
            Entry::Zip { index, name } => (*index, name.clone()),
            _ => (usize::MAX, String::new()),
        })
        .collect();
    assert_eq!(got, vec![(4, "b/1.png".to_string()), (3, "b/02.png".to_string())]);
}

#[test]
fn a_zip_without_images_is_refused() {
    let listing = vec![ZipItem { index: 0, name: "readme.txt".to_string(), is_dir: false }];
    let err = Book::from_found("/x.cbz", Found::Zip(listing)).unwrap_err();
    assert_eq!(err.message(), "no images in /x.cbz");
}

#[test]
fn unpacking_failures_list_what_was_tried() {
    let err = Book::from_found(
        "/x.cbr",
        Found::Unpacked {
            unpacked: false,
            tried: vec!["7zz".to_string(), "unrar (bad archive)".to_string()],
            found: vec![],
            scratch: ScratchDir("/tmp/s".to_string()),
        },
    )
    .unwrap_err();
    assert_eq!(
        err.message(),
        "couldn't unpack /x.cbr. Tried: 7zz; unrar (bad archive). Install 7-Zip from 7-zip.org \
         (the `7zz` build), or unrar (`apt install unrar`, `brew install carlocab/personal/unrar`)."
    );
}

#[test]
fn unpacking_with_no_tool_says_so() {
    let err = Book::from_found(
        "/x.cbr",
        Found::Unpacked {
            unpacked: false,
            tried: vec![],
            found: vec![],
            scratch: ScratchDir("/tmp/s".to_string()),
        },
    )
    .unwrap_err();
    assert_eq!(
        err.message(),
        "couldn't unpack /x.cbr. No 7-Zip or unrar was found on this machine. Install 7-Zip from \
         7-zip.org (the `7zz` build), or unrar (`apt install unrar`, `brew install carlocab/personal/unrar`)."
    );
}

#[test]
fn an_unpacked_archive_keeps_its_scratch_dir() {
    let (book, start) = Book::from_found(
        "/x.cbr",
        Found::Unpacked {
            unpacked: true,
            tried: vec![],
            found: files(&["/tmp/s/10.jpg", "/tmp/s/9.jpg"]),
            scratch: ScratchDir("/tmp/s".to_string()),
        },
    )
    .unwrap();
    assert_eq!(start, 0);
    assert_eq!(book.title, "x");
    assert_eq!(book.path, "/x.cbr");
    assert_eq!(book.kind, Kind::Loose);
    assert_eq!(book._scratch.as_ref().map(|s| s.path().to_string()), Some("/tmp/s".to_string()));
    assert_eq!(keys(&book), vec!["/tmp/s/9.jpg", "/tmp/s/10.jpg"]);
}

#[test]
fn an_unpacked_archive_without_images_is_refused() {
    let err = Book::from_found(
        "/x.cbr",
        Found::Unpacked {
            unpacked: true,
            tried: vec![],
            found: vec![],
            scratch: ScratchDir("/tmp/s".to_string()),
        },
    )
    .unwrap_err();
    assert_eq!(err.message(), "no images in /x.cbr");
}

#[test]
fn a_pdf_is_a_page_count() {
    let (book, start) = Book::from_found("/a/Manual.pdf", Found::Pdf(3)).unwrap();
    assert_eq!(start, 0);
    assert_eq!(book.kind, Kind::Pdf);
    assert_eq!(book.title, "Manual");
    assert_eq!(keys(&book), vec!["00000000", "00000001", "00000002"]);
    let err = Book::from_found("/a/Empty.pdf", Found::Pdf(0)).unwrap_err();
    assert_eq!(err.message(), "/a/Empty.pdf has no pages");
}

#[test]
fn a_loose_image_starts_on_itself() {
    let found = files(&["/c/p2.jpg", "/c/p1.jpg", "/c/p3.jpg"]);
    let (book, start) = Book::from_found("/c/p2.jpg", Found::Image(found)).unwrap();
    assert_eq!(book.path, "/c");
    assert_eq!(book.title, "p2");
    assert_eq!(start, 1);
}

#[test]
fn a_loose_image_not_found_starts_on_the_first_page() {
    let found = files(&["/c/p1.jpg", "/c/p3.jpg"]);
    let (_, start) = Book::from_found("/c/p2.jpg", Found::Image(found)).unwrap();
    assert_eq!(start, 0);
    let entries = files(&["/c/p1.jpg", "/c//p3.jpg"]);
    assert_eq!(start_page(&entries, "/c/p3.jpg"), 1);
}

#[test]
fn an_empty_image_folder_names_the_folder() {
    let err = Book::from_found("/c/p2.jpg", Found::Image(vec![])).unwrap_err();
    assert_eq!(err.message(), "no images in /c");
}

#[test]
fn plans_follow_the_path() {
    assert!(matches!(plan_open("/anything", true), Ok(OpenPlan::Folder)));
    assert!(matches!(plan_open("/a.CBZ", false), Ok(OpenPlan::Zip)));
    assert!(matches!(plan_open("/a.cb7", false), Ok(OpenPlan::External)));
    assert!(matches!(plan_open("/a.pdf", false), Ok(OpenPlan::Pdf)));
    match plan_open("/c/p1.JPG", false) {
        Ok(OpenPlan::Image { dir }) => assert_eq!(dir, "/c"),
        other => panic!("{other:?}"),
    }
    let err = plan_open("/notes.txt", false).unwrap_err();
    assert_eq!(err.message(), "/notes.txt isn't a comic archive or an image");
    let err = plan_open("/", false).unwrap_err();
    assert!(matches!(err, OpenError::NoFileName));
    assert_eq!(err.message(), "that path has no file name");
}

#[test]
fn scratch_dirs_are_named_by_process_and_time() {
    assert_eq!(scratch_name(42, 7), "mangix-42-7");
    assert_eq!(ScratchDir("/tmp/x".to_string()).path(), "/tmp/x");
}

#[test]
fn unreadable_zips_fall_back_to_an_outside_tool() {
    assert!(falls_back(Kind::Zip, false));
    assert!(!falls_back(Kind::Zip, true));
    assert!(!falls_back(Kind::Loose, false));
    assert!(!falls_back(Kind::Pdf, false));
}

fn listing(names: &[&str]) -> Vec<ZipItem> {
    names
        .iter()
        .enumerate()
        .map(|(index, n)| ZipItem { index, name: n.to_string(), is_dir: false })
        .collect()
}

#[test]
fn opening_refuses_what_is_neither_archive_nor_image_before_reading() {
    let gather = |_: &OpenPlan| -> Result<Found, String> { panic!("nothing should be read") };
    let readable = |_: &Book| true;
    let err = Book::open("/notes.txt", false, &gather, &readable).unwrap_err();
    assert_eq!(err.message(), "/notes.txt isn't a comic archive or an image");
    let err = Book::open("/", false, &gather, &readable).unwrap_err();
    assert_eq!(err.message(), "that path has no file name");
}

#[test]
fn opening_a_readable_zip_keeps_it() {
    let gather = |plan: &OpenPlan| -> Result<Found, String> {
        match plan {
            OpenPlan::Zip => Ok(Found::Zip(listing(&["2.png", "1.png"]))),
            _ => Err("unexpected".to_string()),
        }
    };
    let (book, start) = Book::open("/a.cbz", false, &gather, &|_: &Book| true).unwrap();
    assert_eq!((book.kind, start), (Kind::Zip, 0));
    assert_eq!(keys(&book), vec!["1.png", "2.png"]);
}

#[test]
fn opening_an_unreadable_zip_unpacks_it_instead() {
    let gather = |plan: &OpenPlan| -> Result<Found, String> {
        match plan {
            OpenPlan::Zip => Ok(Found::Zip(listing(&["1.png"]))),
            OpenPlan::External => Ok(Found::Unpacked {
                unpacked: true,
                tried: vec![],
                found: files(&["/tmp/s/1.png"]),
                scratch: ScratchDir("/tmp/s".to_string()),
            }),
            _ => Err("unexpected".to_string()),
        }
    };
    let (book, _) = Book::open("/a.cbz", false, &gather, &|_: &Book| false).unwrap();
    assert_eq!(book.kind, Kind::Loose);
    assert_eq!(keys(&book), vec!["/tmp/s/1.png"]);
}

#[test]
fn a_zip_without_images_is_not_retried() {
    let gather = |plan: &OpenPlan| -> Result<Found, String> {
        match plan {
            OpenPlan::Zip => Ok(Found::Zip(listing(&["readme.txt"]))),
            _ => panic!("no fallback"),
        }
    };
    let err = Book::open("/a.cbz", false, &gather, &|_: &Book| false).unwrap_err();
    assert_eq!(err.message(), "no images in /a.cbz");
}

#[test]
fn reading_failures_are_reported_as_they_came() {
    let gather = |_: &OpenPlan| -> Result<Found, String> { Err("reading /d".to_string()) };
    let err = Book::open("/d", true, &gather, &|_: &Book| true).unwrap_err();
    assert!(matches!(&err, OpenError::Failed(m) if m == "reading /d"));
    assert_eq!(err.message(), "reading /d");
}

#[test]
fn opening_a_bare_image_name_reads_the_current_folder() {
    let gather = |plan: &OpenPlan| -> Result<Found, String> {
        match plan {
            OpenPlan::Image { dir } => {
                assert_eq!(dir, ".");
                Ok(Found::Image(files(&["./p1.jpg", "./p2.jpg"])))
            }
            _ => Err("unexpected".to_string()),
        }
    };
    let (book, _) = Book::open("p2.jpg", false, &gather, &|_: &Book| true).unwrap();
    assert_eq!(book.path, ".");
    assert_eq!(book.len(), 2);
}
