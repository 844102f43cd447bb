use mangix::book::{Book, Entry, Kind};
use mangix::spread::{decode_page, join, join_fits, join_pixels, Picture};
use mangix::worker::{
    open_failure_status, page_failure_status, page_label, page_step, portrait, read_ahead, render,
    wants_pair, thumb_start, thumb_turn, Cache, CacheError, Heard, PageCmd, PageRequest, PageStep, ThumbCmd, ThumbTurn,
};
use std::cell::Cell;
use std::sync::Arc;

fn book_of(n: usize) -> Book {
    Book {
        title: "t".to_string(),
        path: "/t".to_string(),
        entries: (0..n).map(|i| Entry::File(format!("/t/{i}.png"))).collect(),
        kind: Kind::Loose,
        _scratch: None,
    }
}

fn picture(w: u32, h: u32, fill: u8) -> Picture {
    let image = image::RgbImage::from_raw(w, h, vec![fill; (w * h * 3) as usize]).unwrap();
    Picture { image }
}

fn view(index: usize, spread: bool, rtl: bool) -> PageRequest {
    PageRequest { index, spread, rtl, dark: true }
}

#[test]
fn the_newest_show_wins() {
    let mut wanted = None;
    assert!(matches!(page_step(&mut wanted, PageCmd::Show { index: 1, spread: false, rtl: false, dark: true }), PageStep::Noted));
    assert!(matches!(page_step(&mut wanted, PageCmd::Show { index: 4, spread: true, rtl: true, dark: false }), PageStep::Noted));
    assert_eq!(wanted, Some(PageRequest { index: 4, spread: true, rtl: true, dark: false }));
    let b = Arc::new(book_of(2));
    assert!(matches!(page_step(&mut wanted, PageCmd::Open(b)), PageStep::Open(_)));
    assert_eq!(wanted, None);
    assert!(matches!(page_step(&mut wanted, PageCmd::Show { index: 0, spread: false, rtl: false, dark: false }), PageStep::Noted));
    assert!(matches!(page_step(&mut wanted, PageCmd::Quit), PageStep::Stop));
    assert_eq!(wanted.map(|w| w.index), Some(0));
}

#[test]
fn reading_ahead() {
    assert_eq!(read_ahead(0, 1, 10), vec![Some(1), Some(2), Some(3), Some(0)]);
    assert_eq!(read_ahead(5, 2, 10), vec![Some(7), Some(8), Some(9), Some(4)]);
    assert_eq!(read_ahead(8, 1, 10), vec![Some(9), None, None, Some(7)]);
}

#[test]
fn pairing_rules() {
    assert!(wants_pair(view(1, true, false), 4, 100, 150));
    assert!(!wants_pair(view(0, true, false), 4, 100, 150));
    assert!(!wants_pair(view(3, true, false), 4, 100, 150));
    assert!(!wants_pair(view(1, false, false), 4, 100, 150));
    assert!(!wants_pair(view(1, true, false), 4, 150, 100));
    assert!(portrait(2, 3));
    assert!(!portrait(3, 3));
}

#[test]
fn page_labels() {
    assert_eq!(page_label(2, 2, 20), "3\u{2013}4 of 20");
    assert_eq!(page_label(0, 1, 5), "1 of 5");
    assert_eq!(page_label(0, 1, -1), "1 of -1");
}

#[test]
fn statuses() {
    assert_eq!(open_failure_status("no zip"), "Couldn't open that comic: no zip");
    assert_eq!(page_failure_status(4, "bad"), "Page 5: bad");
}

#[test]
fn the_cache_loads_once_and_drops_the_oldest() {
    let book = book_of(5);
    let calls = Cell::new(0usize);
    let load = |e: &Entry, cap: u32| -> Result<Picture, String> {
        calls.set(calls.get() + 1);
        let n = e.sort_key().len() as u8;
        Ok(picture(1, 1, n + (cap % 7) as u8))
    };
    let mut cache = Cache::new(2, 100);
    let first = cache.get(&book, 0, &load).unwrap();
    let again = cache.get(&book, 0, &load).unwrap();
    assert!(Arc::ptr_eq(&first, &again));
    assert_eq!(first.image.as_raw()[0], 8 + 2);
    assert_eq!(calls.get(), 1);
    cache.get(&book, 1, &load).unwrap();
    cache.get(&book, 2, &load).unwrap();
    assert_eq!(calls.get(), 3);
    cache.get(&book, 1, &load).unwrap();
    assert_eq!(calls.get(), 3);
    cache.get(&book, 0, &load).unwrap();
    assert_eq!(calls.get(), 4);
    cache.clear();
    cache.get(&book, 1, &load).unwrap();
    assert_eq!(calls.get(), 5);
}

#[test]
fn cache_errors() {
    let book = book_of(2);
    let mut cache = Cache::new(4, 100);
    let load = |_: &Entry, _: u32| -> Result<Picture, String> { Err("unreadable".to_string()) };
    match cache.get(&book, 9, &load) {
        Err(e) => {
            assert!(matches!(e, CacheError::NoSuchPage));
            assert_eq!(e.message(), Some("no such page".to_string()));
        }
        Ok(_) => panic!("page 9 exists"),
    }
    match cache.get(&book, 1, &load) {
        Err(CacheError::Load(e)) => assert_eq!(e, "unreadable"),
        _ => panic!("the loader failed"),
    }
}

#[test]
fn spreads_are_remembered_by_key() {
    let book = book_of(4);
    let load = |_: &Entry, _: u32| -> Result<Picture, String> { Ok(picture(2, 3, 10)) };
    let mut cache = Cache::new(12, 2400);
    assert!(cache.spread_for((1, false, true)).is_none());
    let (canvas, _) = render(&mut cache, &book, view(1, true, false), &load).ok().unwrap();
    let kept = cache.spread_for((1, false, true)).unwrap();
    assert!(Arc::ptr_eq(&canvas, &kept));
    assert!(cache.spread_for((1, true, true)).is_none());
    assert!(cache.spread_for((3, false, true)).is_none());
    cache.clear();
    assert!(cache.spread_for((1, false, true)).is_none());
}

#[test]
fn joined_pages_sit_side_by_side() {
    let left = Picture { image: image::RgbImage::from_raw(1, 1, vec![255, 0, 0]).unwrap() };
    let right = Picture { image: image::RgbImage::from_raw(1, 2, vec![0, 255, 0, 0, 0, 255]).unwrap() };
    assert!(join_fits(&left, &right));
    let out = join(&left, &right, true);
    assert_eq!((out.image.width(), out.image.height()), (10, 2));
    let mut want: Vec<u8> = Vec::new();
    want.extend([255, 0, 0]);
    for _ in 0..8 {
        want.extend([12, 11, 16]);
    }
    want.extend([0, 255, 0]);
    want.extend([12, 11, 16]);
    for _ in 0..8 {
        want.extend([12, 11, 16]);
    }
    want.extend([0, 0, 255]);
    assert_eq!(out.image.as_raw(), &want);
}

#[test]
fn a_shorter_page_is_centred() {
    let out = join_pixels(&[1, 1, 1], 1, 1, &[2, 2, 2, 3, 3, 3, 4, 4, 4], 1, 3, false);
    let row = 10 * 3;
    assert_eq!(out.len(), 3 * row);
    assert_eq!(&out[0..3], &[207, 202, 192]);
    assert_eq!(&out[row..row + 3], &[1, 1, 1]);
    assert_eq!(&out[2 * row..2 * row + 3], &[207, 202, 192]);
    assert_eq!(&out[row + 27..row + 30], &[3, 3, 3]);
}

#[test]
fn rendering_pairs_portrait_pages() {
    let book = book_of(4);
    let load = |e: &Entry, _: u32| -> Result<Picture, String> {
        match e {
            Entry::File(p) if p == "/t/1.png" => Ok(picture(2, 3, 10)),
            Entry::File(p) if p == "/t/2.png" => Ok(picture(2, 3, 20)),
            _ => Ok(picture(4, 3, 30)),
        }
    };
    let mut cache: Cache = Cache::new(12, 2400);
    let (canvas, span) = render(&mut cache, &book, view(1, true, false), &load).ok().unwrap();
    assert_eq!(span, 2);
    assert_eq!((canvas.image.width(), canvas.image.height()), (12, 3));
    assert_eq!(&canvas.image.as_raw()[0..3], &[10, 10, 10]);
    assert_eq!(&canvas.image.as_raw()[30..33], &[20, 20, 20]);

    let (canvas, span) = render(&mut cache, &book, view(1, true, true), &load).ok().unwrap();
    assert_eq!(span, 2);
    assert_eq!(&canvas.image.as_raw()[0..3], &[20, 20, 20]);

    let (_, span) = render(&mut cache, &book, view(1, false, false), &load).ok().unwrap();
    assert_eq!(span, 1);
    let (canvas, span) = render(&mut cache, &book, view(0, true, false), &load).ok().unwrap();
    assert_eq!(span, 1);
    assert_eq!(canvas.image.width(), 4);
    let (_, span) = render(&mut cache, &book, view(3, true, false), &load).ok().unwrap();
    assert_eq!(span, 1);
}

#[test]
fn rendering_reports_a_missing_first_page() {
    let book = book_of(2);
    let load = |_: &Entry, _: u32| -> Result<Picture, String> { Err("corrupt".to_string()) };
    let mut cache: Cache = Cache::new(12, 2400);
    match render(&mut cache, &book, view(0, false, false), &load) {
        Err(CacheError::Load(e)) => assert_eq!(e, "corrupt"),
        _ => panic!("the page could not be loaded"),
    }
    assert!(matches!(render(&mut cache, &book, view(5, false, false), &load), Err(CacheError::NoSuchPage)));
}

#[test]
fn decoding_pages() {
    assert!(decode_page(b"not an image").is_err());
    let mut png: Vec<u8> = Vec::new();
    let img = image::RgbImage::from_raw(2, 1, vec![1, 2, 3, 4, 5, 6]).unwrap();
    img.write_to(&mut std::io::Cursor::new(&mut png), image::ImageFormat::Png).unwrap();
    let decoded = decode_page(&png).unwrap();
    assert_eq!(decoded.into_rgb8().as_raw(), &vec![1, 2, 3, 4, 5, 6]);
}

#[test]
fn a_remembered_pair_is_reused() {
    let book = book_of(4);
    let calls = Cell::new(0usize);
    let load = |_: &Entry, _: u32| -> Result<Picture, String> {
        calls.set(calls.get() + 1);
        Ok(picture(2, 3, 10))
    };
    let mut cache = Cache::new(12, 2400);
    let (first, span) = render(&mut cache, &book, view(1, true, false), &load).ok().unwrap();
    assert_eq!(span, 2);
    assert_eq!(calls.get(), 2);
    let (again, span) = render(&mut cache, &book, view(1, true, false), &load).ok().unwrap();
    assert_eq!(span, 2);
    assert!(Arc::ptr_eq(&first, &again));
    assert_eq!(calls.get(), 2);
    let (other, _) = render(&mut cache, &book, view(1, true, true), &load).ok().unwrap();
    assert!(!Arc::ptr_eq(&first, &other));
    assert_eq!(other.image.width(), 12);
}

#[test]
fn thumbnails_come_in_page_order_until_preempted() {
    assert!(matches!(thumb_turn(0, 3, Heard::Nothing), ThumbTurn::Make(0)));
    assert!(matches!(thumb_turn(2, 3, Heard::Nothing), ThumbTurn::Make(2)));
    assert!(matches!(thumb_turn(3, 3, Heard::Nothing), ThumbTurn::Done));
    assert!(matches!(thumb_turn(1, 3, Heard::Closed), ThumbTurn::Stop));
    assert!(matches!(thumb_turn(1, 3, Heard::Command(ThumbCmd::Quit)), ThumbTurn::Preempt(ThumbCmd::Quit)));
    assert!(thumb_start(ThumbCmd::Quit).is_none());
    assert_eq!(thumb_start(ThumbCmd::Open(Arc::new(book_of(2)))).map(|b| b.len()), Some(2));
}
