//! What a file name says about a page: whether it is an image, whether it is
//! junk that rides along inside archives, and which kind of book a path is.

use crate::text::{
    ascii_lower, chars_of, find_last, last_index, lower_ascii, lower_ascii_from, same_chars,
};
use vstd::prelude::*;
use vstd::string::StringExecFns;

verus! {

/// The extensions read as page images, compared after ASCII lower-casing.
pub open spec fn image_extension(ext: Seq<char>) -> bool {
    let e = lower_ascii(ext);
    ||| e == "jpg"@
    ||| e == "jpeg"@
    ||| e == "jpe"@
    ||| e == "png"@
    ||| e == "gif"@
    ||| e == "webp"@
    ||| e == "bmp"@
    ||| e == "tif"@
    ||| e == "tiff"@
}

/// A name is an image when the text after its last '.' is an image extension.
pub open spec fn names_image(name: Seq<char>) -> bool {
    let k = last_index(name, '.');
    k >= 0 && image_extension(name.skip(k + 1))
}

fn is_image_extension(e: &[char]) -> (r: bool)
    ensures
        r == (e@ == "jpg"@ || e@ == "jpeg"@ || e@ == "jpe"@ || e@ == "png"@ || e@ == "gif"@
            || e@ == "webp"@ || e@ == "bmp"@ || e@ == "tif"@ || e@ == "tiff"@),
{
    same_chars(e, "jpg") || same_chars(e, "jpeg") || same_chars(e, "jpe") || same_chars(e, "png")
        || same_chars(e, "gif") || same_chars(e, "webp") || same_chars(e, "bmp") || same_chars(
        e,
        "tif",
    ) || same_chars(e, "tiff")
}

pub fn is_image(name: &str) -> (r: bool)
    ensures
        r == names_image(name@),
{
    let cs = chars_of(name);
    match find_last(cs.as_slice(), '.') {
        Some(k) => {
            let ext = lower_ascii_from(cs.as_slice(), k + 1);
            is_image_extension(ext.as_slice())
        },
        None => false,
    }
}

} // verus!

verus! {

/// The last '/'-separated segment of a name.
pub open spec fn leaf(name: Seq<char>) -> Seq<char> {
    name.skip(last_index(name, '/') + 1)
}

/// Skips the junk that ends up inside comic archives: hidden files and
/// macOS resource forks.
pub open spec fn wanted_name(name: Seq<char>) -> bool {
    &&& names_image(name)
    &&& !(leaf(name).len() > 0 && leaf(name)[0] == '.')
    &&& !crate::text::contains_seq(name, "__MACOSX"@)
}

pub fn wanted(name: &str) -> (r: bool)
    ensures
        r == wanted_name(name@),
{
    let cs = chars_of(name);
    let start = match find_last(cs.as_slice(), '/') {
        Some(k) => k + 1,
        None => 0,
    };
    proof {
        crate::text::lemma_last_index(name@, '/');
    }
    let hidden = start < cs.len() && cs[start] == '.';
    let junk = chars_of("__MACOSX");
    let macos = crate::text::contains_chars(cs.as_slice(), junk.as_slice());
    is_image(name) && !hidden && !macos
}

} // verus!

verus! {

/// What `std::path::Path::file_name` gives for a path: its final component,
/// unless that is `..` or the path ends in a root.
pub uninterp spec fn file_name_of(path: Seq<char>) -> Option<Seq<char>>;

/// What `std::path::Path::parent` gives for a path.
pub uninterp spec fn parent_of(path: Seq<char>) -> Option<Seq<char>>;

/// The stem of a file name, as std documents `Path::file_stem`: the whole name
/// when it has no '.' past its first character, else the part before the last '.'.
pub open spec fn stem_of(name: Seq<char>) -> Seq<char> {
    let k = last_index(name, '.');
    if k <= 0 {
        name
    } else {
        name.take(k)
    }
}

/// The extension of a file name, as std documents `Path::extension`.
pub open spec fn extension_of(name: Seq<char>) -> Option<Seq<char>> {
    let k = last_index(name, '.');
    if k <= 0 {
        None
    } else {
        Some(name.skip(k + 1))
    }
}

/// `std::path::Path::file_name`, as text.
#[verifier::external_body]
fn path_file_name(path: &str) -> (r: Option<String>)
    ensures
        match r {
            Some(n) => file_name_of(path@) == Some(n@),
            None => file_name_of(path@) is None,
        },
{
    match std::path::Path::new(path).file_name() {
        Some(n) => Some(n.to_string_lossy().into_owned()),
        None => None,
    }
}

/// `std::path::Path::file_stem`, as text: the stem of the file name, per its
/// documentation.
#[verifier::external_body]
fn path_file_stem(path: &str) -> (r: Option<String>)
    ensures
        match r {
            Some(s) => file_name_of(path@) is Some && s@ == stem_of(file_name_of(path@)->0),
            None => file_name_of(path@) is None,
        },
{
    match std::path::Path::new(path).file_stem() {
        Some(s) => Some(s.to_string_lossy().into_owned()),
        None => None,
    }
}

/// `std::path::Path::extension`, as text: the extension of the file name, per
/// its documentation.
#[verifier::external_body]
fn path_extension(path: &str) -> (r: Option<String>)
    ensures
        match r {
            Some(e) => file_name_of(path@) is Some && extension_of(file_name_of(path@)->0) == Some(
                e@,
            ),
            None => file_name_of(path@) is None || extension_of(file_name_of(path@)->0) is None,
        },
{
    match std::path::Path::new(path).extension() {
        Some(e) => Some(e.to_string_lossy().into_owned()),
        None => None,
    }
}

/// `std::path::Path::parent`, as text.
#[verifier::external_body]
fn path_parent(path: &str) -> (r: Option<String>)
    ensures
        match r {
            Some(p) => parent_of(path@) == Some(p@),
            None => parent_of(path@) is None,
        },
{
    match std::path::Path::new(path).parent() {
        Some(p) => Some(p.to_string_lossy().into_owned()),
        None => None,
    }
}

/// What `Path::join` gives for a base and a part, as text.
pub uninterp spec fn path_joined(base: Seq<char>, part: Seq<char>) -> Seq<char>;

/// `Path::join`, read back as a string.
#[verifier::external_body]
pub(crate) fn join_path(base: &str, part: &str) -> (r: String)
    ensures
        r@ == path_joined(base@, part@),
{
    std::path::Path::new(base).join(part).to_string_lossy().into_owned()
}

/// How a book's pages are got at, judged by the file's extension.
#[derive(Clone, Copy, Debug, PartialEq, Eq, Structural)]
pub enum ArchiveKind {
    /// Read with the zip crate.
    Zip,
    /// Unpacked by 7-Zip or unrar.
    External,
    /// Rendered page by page.
    Pdf,
}

/// The kind of archive an extension (already lower-cased) names.
pub open spec fn archive_for(ext: Seq<char>) -> Option<ArchiveKind> {
    if ext == "cbz"@ || ext == "zip"@ {
        Some(ArchiveKind::Zip)
    } else if ext == "cbr"@ || ext == "rar"@ || ext == "cb7"@ || ext == "7z"@ {
        Some(ArchiveKind::External)
    } else if ext == "pdf"@ {
        Some(ArchiveKind::Pdf)
    } else {
        None
    }
}

/// The kind of archive a path is, if any.
pub open spec fn archive_of(path: Seq<char>) -> Option<ArchiveKind> {
    match file_name_of(path) {
        Some(name) => match extension_of(name) {
            Some(ext) => archive_for(lower_ascii(ext)),
            None => None,
        },
        None => None,
    }
}

pub fn is_archive(path: &str) -> (r: Option<ArchiveKind>)
    ensures
        r == archive_of(path@),
{
    let ext = match path_extension(path) {
        Some(e) => e,
        None => return None,
    };
    let cs = chars_of(ext.as_str());
    let e = lower_ascii_from(cs.as_slice(), 0);
    assert(cs@.skip(0) =~= cs@);
    let e = e.as_slice();
    if same_chars(e, "cbz") || same_chars(e, "zip") {
        Some(ArchiveKind::Zip)
    } else if same_chars(e, "cbr") || same_chars(e, "rar") || same_chars(e, "cb7") || same_chars(
        e,
        "7z",
    ) {
        Some(ArchiveKind::External)
    } else if same_chars(e, "pdf") {
        Some(ArchiveKind::Pdf)
    } else {
        None
    }
}

/// The name a book is shown under: the file's stem, else the whole path.
pub open spec fn display_of(path: Seq<char>) -> Seq<char> {
    match file_name_of(path) {
        Some(name) => stem_of(name),
        None => path,
    }
}

pub fn display_name(path: &str) -> (r: String)
    ensures
        r@ == display_of(path@),
{
    match path_file_stem(path) {
        Some(s) => s,
        None => match path_file_name(path) {
            Some(n) => n,
            None => String::from_str(path),
        },
    }
}

/// The directory a loose image is read from: its parent, or the current
/// directory "." when it has none or the parent is empty (a bare file name).
pub open spec fn folder_of(path: Seq<char>) -> Seq<char> {
    match parent_of(path) {
        Some(p) => if p.len() == 0 {
            "."@
        } else {
            p
        },
        None => "."@,
    }
}

pub fn folder(path: &str) -> (r: String)
    ensures
        r@ == folder_of(path@),
{
    match path_parent(path) {
        Some(p) => if p.as_str().unicode_len() == 0 {
            String::from_str(".")
        } else {
            p
        },
        None => String::from_str("."),
    }
}

/// The file name of a path, when it has one.
pub fn file_name(path: &str) -> (r: Option<String>)
    ensures
        match r {
            Some(n) => file_name_of(path@) == Some(n@),
            None => file_name_of(path@) is None,
        },
{
    path_file_name(path)
}

} // verus!
