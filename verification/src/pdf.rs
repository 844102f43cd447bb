//! PDFs are counted and drawn by the one thread that owns pdfium; these are
//! the rules for the answers that thread gives and for the documents it keeps.

use crate::text::{decimal, push_decimal};
use vstd::prelude::*;
use vstd::string::StringExecFns;

verus! {

/// The answer to every request when the pdfium library cannot be loaded.
pub open spec fn missing_text() -> Seq<char> {
    "reading PDFs needs the pdfium library. Put pdfium.dll (pdfium.so on Linux, libpdfium.dylib on macOS) next to the Mangix executable. Prebuilt copies are at github.com/bblanchon/pdfium-binaries."@
}

pub fn missing() -> (r: String)
    ensures
        r@ == missing_text(),
{
    String::from_str(
        "reading PDFs needs the pdfium library. Put pdfium.dll (pdfium.so on Linux, libpdfium.dylib on macOS) next to the Mangix executable. Prebuilt copies are at github.com/bblanchon/pdfium-binaries.",
    )
}

/// What a request is told when the pdfium thread has gone.
pub open spec fn stopped_text() -> Seq<char> {
    "the pdfium thread stopped"@
}

/// The outcome of a request to the pdfium thread: its reply, or, when no
/// reply came back, that the thread stopped.
pub fn settle<T>(reply: Option<Result<T, String>>) -> (r: Result<T, String>)
    ensures
        match reply {
            Some(answer) => r == answer,
            None => r matches Err(e) && e@ == stopped_text(),
        },
{
    match reply {
        Some(answer) => answer,
        None => Err(String::from_str("the pdfium thread stopped")),
    }
}

/// How many pages the document has, from the pdfium thread's reply to the
/// count request.
pub fn page_count(reply: Option<Result<usize, String>>) -> (r: Result<usize, String>)
    ensures
        match reply {
            Some(answer) => r == answer,
            None => r matches Err(e) && e@ == stopped_text(),
        },
{
    settle(reply)
}

/// What the pdfium thread does before answering about a document.
#[derive(Clone, Copy, Debug, PartialEq, Eq, Structural)]
pub enum DocStep {
    /// It is open already.
    Ready,
    /// Open it and keep it.
    Load,
    /// Close every open document first: only one book is read at a time, so
    /// documents are not left to pile up.
    ClearThenLoad,
}

/// The step for a document when `open` documents are open and it is or is
/// not among them.
pub open spec fn step_for(open: usize, loaded: bool) -> DocStep {
    if loaded {
        DocStep::Ready
    } else if open > 2 {
        DocStep::ClearThenLoad
    } else {
        DocStep::Load
    }
}

/// How many documents are open once a step has loaded its document.
pub open spec fn open_after(open: nat, step: DocStep) -> nat {
    match step {
        DocStep::Ready => open,
        DocStep::Load => open + 1,
        DocStep::ClearThenLoad => 1,
    }
}

/// Documents do not pile up: from at most three open, a request leaves at
/// most three open, and a document already open is used as it is.
pub proof fn documents_stay_few(open: usize, loaded: bool)
    requires
        open <= 3,
    ensures
        open_after(open as nat, step_for(open, loaded)) <= 3,
        loaded ==> step_for(open, loaded) == DocStep::Ready && open_after(
            open as nat,
            step_for(open, loaded),
        ) == open,
{
}

pub fn document_step(open: usize, loaded: bool) -> (r: DocStep)
    ensures
        r == step_for(open, loaded),
        loaded ==> r == DocStep::Ready,
        !loaded && open > 2 ==> r == DocStep::ClearThenLoad,
        !loaded && open <= 2 ==> r == DocStep::Load,
{
    if loaded {
        DocStep::Ready
    } else if open > 2 {
        DocStep::ClearThenLoad
    } else {
        DocStep::Load
    }
}

/// A document that could not be opened.
pub fn opening_failure(path: &str, error: &str) -> (r: String)
    ensures
        r@ == "opening "@ + path@ + ": "@ + error@,
{
    let mut s = String::from_str("opening ");
    s.append(path);
    s.append(": ");
    s.append(error);
    s
}

/// A page that pdfium would not hand out (pages are counted from one).
pub fn page_failure(index: usize, error: &str) -> (r: String)
    ensures
        r@ == "page "@ + decimal(index as nat + 1) + ": "@ + error@,
{
    let mut s = String::from_str("page ");
    push_decimal(&mut s, index as u128 + 1);
    s.append(": ");
    s.append(error);
    s
}

/// A page that pdfium could not draw.
pub fn rendering_failure(index: usize, error: &str) -> (r: String)
    ensures
        r@ == "rendering page "@ + decimal(index as nat + 1) + ": "@ + error@,
{
    let mut s = String::from_str("rendering page ");
    push_decimal(&mut s, index as u128 + 1);
    s.append(": ");
    s.append(error);
    s
}

} // verus!
