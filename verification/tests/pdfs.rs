use mangix::pdf::{
    document_step, missing, opening_failure, page_count, page_failure, rendering_failure, settle,
    DocStep,
};

#[test]
fn page_counts_come_from_the_reply() {
    assert_eq!(page_count(Some(Ok(3))), Ok(3));
    assert_eq!(page_count(Some(Err("broken".to_string()))), Err("broken".to_string()));
    assert_eq!(page_count(None), Err("the pdfium thread stopped".to_string()));
    assert_eq!(settle::<u8>(None), Err("the pdfium thread stopped".to_string()));
}

#[test]
fn documents_do_not_pile_up() {
    assert_eq!(document_step(5, true), DocStep::Ready);
    assert_eq!(document_step(0, false), DocStep::Load);
    assert_eq!(document_step(2, false), DocStep::Load);
    assert_eq!(document_step(3, false), DocStep::ClearThenLoad);
}

#[test]
fn failures_count_pages_from_one() {
    assert_eq!(opening_failure("/a.pdf", "bad header"), "opening /a.pdf: bad header");
    assert_eq!(page_failure(0, "out of range"), "page 1: out of range");
    assert_eq!(rendering_failure(2, "no memory"), "rendering page 3: no memory");
    assert!(missing().starts_with("reading PDFs needs the pdfium library."));
    assert!(missing().ends_with("github.com/bblanchon/pdfium-binaries."));
}

#[test]
fn at_most_three_documents_stay_open() {
    let mut open = 0usize;
    for _ in 0..10 {
        match document_step(open, false) {
            DocStep::Load => open += 1,
            DocStep::ClearThenLoad => open = 1,
            DocStep::Ready => {}
        }
        assert!(open <= 3);
    }
}
