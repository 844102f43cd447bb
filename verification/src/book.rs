//! A book as an ordered list of pages, and the rules that build one.

use crate::natural::{natural_cmp, natural_order};
use crate::names::{
    archive_of, file_name, file_name_of, folder, folder_of, is_archive, is_image, names_image,
    ArchiveKind,
};
use crate::text::{push_zero_padded, zero_padded};
use core::cmp::Ordering;
use vstd::prelude::*;
use vstd::string::StringExecFns;

verus! {

/// Where a single page lives.
#[derive(Clone, Debug)]
pub enum Entry {
    Zip { index: usize, name: String },
    File(String),
    /// A page of a PDF, rendered on demand rather than read as bytes.
    Pdf { index: usize },
}

impl Entry {
    /// The text pages are ordered by, before case folding.
    pub open spec fn key_text(self) -> Seq<char> {
        match self {
            Entry::Zip { name, .. } => name@,
            Entry::File(p) => p@,
            Entry::Pdf { index } => zero_padded(index as nat, 8),
        }
    }

    pub fn sort_key(&self) -> (r: String)
        ensures
            r@ == self.key_text(),
    {
        match self {
            Entry::Zip { name, .. } => name.clone(),
            Entry::File(p) => p.clone(),
            // Already in reading order; pad so 10 sorts after 9.
            Entry::Pdf { index } => {
                let mut s = String::new();
                push_zero_padded(&mut s, *index as u128, 8);
                s
            },
        }
    }
}

/// What `str::to_lowercase` gives for a text (full Unicode case folding).
pub uninterp spec fn lowercase(s: Seq<char>) -> Seq<char>;

/// `str::to_lowercase`.
#[verifier::external_body]
fn to_lowercase(s: &str) -> (r: String)
    ensures
        r@ == lowercase(s@),
{
    s.to_lowercase()
}

/// The UTF-8 bytes of a text.
pub open spec fn utf8(s: Seq<char>) -> Seq<u8> {
    vstd::utf8::encode_utf8(s)
}

/// The bytes an entry is ranked by: its key, lower-cased, as UTF-8.
pub open spec fn rank(e: Entry) -> Seq<u8> {
    vstd::utf8::encode_utf8(lowercase(e.key_text()))
}

/// `a` ranks strictly after `b`.
pub open spec fn ranks_after(a: Seq<u8>, b: Seq<u8>) -> bool {
    natural_order(a, b) == Ordering::Greater
}

/// `a` ranks level with `b`.
pub open spec fn ranks_level(a: Seq<u8>, b: Seq<u8>) -> bool {
    natural_order(a, b) == Ordering::Equal
}

/// `after` is `before` rearranged by `p` (after[k] == before[p[k]], no index used twice),
/// ranked in natural order, with entries that rank level left in the order they came.
pub open spec fn stable_arrangement(before: Seq<Entry>, after: Seq<Entry>, p: Seq<int>) -> bool {
    &&& after.len() == before.len()
    &&& p.len() == before.len()
    &&& forall|k: int| 0 <= k < p.len() ==> 0 <= #[trigger] p[k] < before.len()
    &&& forall|k: int| 0 <= k < p.len() ==> #[trigger] after[k] == before[p[k]]
    &&& forall|k: int, l: int| 0 <= k < l < p.len() ==> p[k] != p[l]
    &&& forall|k: int, l: int|
        0 <= k < l < p.len() ==> !ranks_after(rank(#[trigger] after[k]), rank(#[trigger] after[l]))
    &&& forall|k: int, l: int|
        0 <= k < l < p.len() && ranks_level(rank(#[trigger] after[k]), rank(#[trigger] after[l]))
            ==> p[k] < p[l]
}

/// The entries in natural order of their lower-cased keys, stably.
pub open spec fn naturally_sorted(before: Seq<Entry>, after: Seq<Entry>) -> bool {
    exists|p: Seq<int>| stable_arrangement(before, after, p)
}

/// Where `key` goes among `keys`: after every key it ranks strictly after.
fn insertion_point(keys: &Vec<String>, key: &String) -> (pos: usize)
    ensures
        pos <= keys@.len(),
        forall|q: int| 0 <= q < pos ==> ranks_after(utf8(key@), #[trigger] utf8(keys@[q]@)),
        forall|q: int| q == pos && q < keys@.len() ==> !ranks_after(utf8(key@), #[trigger] utf8(keys@[q]@)),
{
    let mut pos: usize = 0;
    while pos < keys.len()
        invariant
            pos <= keys@.len(),
            forall|q: int| 0 <= q < pos ==> ranks_after(utf8(key@), #[trigger] utf8(keys@[q]@)),
        decreases keys@.len() - pos,
    {
        match natural_cmp(key.as_str(), keys[pos].as_str()) {
            Ordering::Greater => {},
            _ => return pos,
        }
        pos = pos + 1;
    }
    pos
}

} // verus!

verus! {

proof fn lemma_after_excludes(a: Seq<u8>, b: Seq<u8>)
    ensures
        ranks_after(a, b) ==> !ranks_after(b, a) && !ranks_level(b, a),
        ranks_level(a, b) ==> ranks_level(b, a),
{
    crate::natural::natural_order_antisymmetric(a, b);
}

proof fn lemma_not_after_chain(a: Seq<u8>, b: Seq<u8>, c: Seq<u8>)
    ensures
        !ranks_after(a, b) && !ranks_after(b, c) ==> !ranks_after(a, c),
{
    crate::natural::natural_order_transitive(a, b, c);
}

/// Sorts entries by their lower-cased keys in natural order, keeping entries
/// that rank level in the order they came.
pub fn sort_entries(entries: &mut Vec<Entry>)
    ensures
        naturally_sorted(old(entries)@, final(entries)@),
{
    let ghost given = entries@;
    let ghost n = given.len();
    let mut out: Vec<Entry> = Vec::new();
    let mut keys: Vec<String> = Vec::new();
    let ghost mut p: Seq<int> = Seq::empty();
    while entries.len() > 0
        invariant
            n == given.len(),
            entries@ == given.take(entries@.len() as int),
            entries@.len() <= n,
            out@.len() == n - entries@.len(),
            keys@.len() == out@.len(),
            p.len() == out@.len(),
            forall|k: int| 0 <= k < keys@.len() ==> #[trigger] utf8(keys@[k]@) == rank(out@[k]),
            forall|k: int| 0 <= k < p.len() ==> entries@.len() <= #[trigger] p[k] < n,
            forall|k: int| 0 <= k < p.len() ==> #[trigger] out@[k] == given[p[k]],
            forall|k: int, l: int| 0 <= k < l < p.len() ==> p[k] != p[l],
            forall|k: int, l: int|
                0 <= k < l < p.len() ==> !ranks_after(rank(#[trigger] out@[k]), rank(#[trigger] out@[l])),
            forall|k: int, l: int|
                0 <= k < l < p.len() && ranks_level(rank(#[trigger] out@[k]), rank(#[trigger] out@[l]))
                    ==> p[k] < p[l],
        decreases entries@.len(),
    {
        let ghost r = entries@.len();
        let e = entries.pop().unwrap();
        proof {
            assert(e == given[r - 1]);
            assert(entries@ =~= given.take(r - 1));
        }
        let raw = e.sort_key();
        let key = to_lowercase(raw.as_str());
        let pos = insertion_point(&keys, &key);
        let ghost old_out = out@;
        let ghost old_keys = keys@;
        let ghost old_p = p;
        assert(utf8(key@) == rank(e));
        out.insert(pos, e);
        keys.insert(pos, key);
        proof {
            p = old_p.insert(pos as int, r - 1);
            let m = old_p.len() as int;
            let ps = pos as int;
            assert forall|k: int| 0 <= k < keys@.len() implies #[trigger] utf8(keys@[k]@) == rank(out@[k]) by {
                if k < ps {
                    assert(keys@[k] == old_keys[k]);
                    assert(out@[k] == old_out[k]);
                } else if k > ps {
                    assert(keys@[k] == old_keys[k - 1]);
                    assert(out@[k] == old_out[k - 1]);
                }
            }
            assert forall|k: int| 0 <= k < p.len() implies #[trigger] out@[k] == given[p[k]] by {
                if k < ps {
                    assert(out@[k] == old_out[k]);
                } else if k > ps {
                    assert(out@[k] == old_out[k - 1]);
                }
            }
            assert forall|k: int| 0 <= k < p.len() implies entries@.len() <= #[trigger] p[k] < n by {
                if k < ps {
                    assert(p[k] == old_p[k]);
                } else if k > ps {
                    assert(p[k] == old_p[k - 1]);
                }
            }
            assert forall|k: int, l: int| 0 <= k < l < p.len() implies p[k] != p[l] by {
                if k < ps {
                    assert(p[k] == old_p[k]);
                } else if k > ps {
                    assert(p[k] == old_p[k - 1]);
                }
                if l < ps {
                    assert(p[l] == old_p[l]);
                } else if l > ps {
                    assert(p[l] == old_p[l - 1]);
                }
            }
            assert forall|k: int, l: int| 0 <= k < l < p.len() implies !ranks_after(
                rank(#[trigger] out@[k]),
                rank(#[trigger] out@[l]),
            ) && (ranks_level(rank(out@[k]), rank(out@[l])) ==> p[k] < p[l]) by {
                let ek = rank(out@[k]);
                let el = rank(out@[l]);
                if l < ps {
                    assert(out@[k] == old_out[k] && out@[l] == old_out[l]);
                    assert(p[k] == old_p[k] && p[l] == old_p[l]);
                } else if l == ps {
                    assert(out@[k] == old_out[k]);
                    assert(utf8(old_keys[k]@) == rank(old_out[k]));
                    lemma_after_excludes(rank(e), rank(old_out[k]));
                } else if k > ps {
                    assert(out@[k] == old_out[k - 1] && out@[l] == old_out[l - 1]);
                    assert(p[k] == old_p[k - 1] && p[l] == old_p[l - 1]);
                } else if k == ps {
                    assert(out@[l] == old_out[l - 1]);
                    assert(p[l] == old_p[l - 1]);
                    assert(utf8(old_keys[ps]@) == rank(old_out[ps]));
                    if l - 1 > ps {
                        assert(!ranks_after(rank(old_out[ps]), rank(old_out[l - 1])));
                    }
                    lemma_not_after_chain(rank(e), rank(old_out[ps]), rank(old_out[l - 1]));
                } else {
                    // k < ps < l
                    assert(out@[k] == old_out[k] && out@[l] == old_out[l - 1]);
                    assert(p[k] == old_p[k] && p[l] == old_p[l - 1]);
                    assert(!ranks_after(rank(old_out[k]), rank(old_out[l - 1])));
                }
            }
        }
    }
    proof {
        assert forall|k: int| 0 <= k < p.len() implies 0 <= #[trigger] p[k] < given.len() by {}
        assert(stable_arrangement(given, out@, p));
    }
    *entries = out;
}

} // verus!

verus! {

/// How many folders deep a book's images are looked for.
pub const MAX_DEPTH: usize = 6;

/// What a book's pages are read from.
#[derive(Clone, Copy, Debug, PartialEq, Eq, Structural)]
pub enum Kind {
    Zip,
    Loose,
    Pdf,
}

/// A temporary directory that unpacked pages live in for as long as the book
/// is open. The directory itself is made and removed by the application.
#[derive(Debug)]
pub struct ScratchDir(pub String);

impl ScratchDir {
    pub fn path(&self) -> (r: &str)
        ensures
            r@ == self.0@,
    {
        self.0.as_str()
    }
}

/// The name of a scratch directory: `mangix-<process id>-<nanosecond stamp>`.
pub open spec fn scratch_name_of(pid: nat, stamp: nat) -> Seq<char> {
    "mangix-"@ + crate::text::decimal(pid) + "-"@ + crate::text::decimal(stamp)
}

pub fn scratch_name(pid: u32, stamp: u128) -> (r: String)
    ensures
        r@ == scratch_name_of(pid as nat, stamp as nat),
{
    let mut s = String::from_str("mangix-");
    crate::text::push_decimal(&mut s, pid as u128);
    s.append("-");
    crate::text::push_decimal(&mut s, stamp);
    s
}

#[derive(Debug)]
pub struct Book {
    pub title: String,
    /// The archive itself, or the directory the pages came from.
    pub path: String,
    pub entries: Vec<Entry>,
    pub kind: Kind,
    /// Where unpacked pages live, for books unpacked by an outside tool.
    pub _scratch: Option<ScratchDir>,
}

impl Book {
    pub fn len(&self) -> (r: usize)
        ensures
            r == self.entries@.len(),
    {
        self.entries.len()
    }
}

/// Why a path could not be opened as a book.
#[derive(Debug)]
pub enum OpenError {
    /// A folder or archive without a single page image.
    NoImages(String),
    /// A PDF with no pages.
    NoPages(String),
    /// A path that ends in `..` or a root.
    NoFileName,
    /// A file that is neither an archive nor an image.
    NotComic(String),
    /// Neither 7-Zip nor unrar could unpack it; what was tried, and how it failed.
    Unpack { path: String, tried: Vec<String> },
    /// Reading what the path holds failed, for the reason given.
    Failed(String),
}

impl OpenError {
    /// The message shown for this error.
    pub open spec fn text(&self) -> Seq<char> {
        match self {
            OpenError::NoImages(p) => "no images in "@ + p@,
            OpenError::NoPages(p) => p@ + " has no pages"@,
            OpenError::NoFileName => "that path has no file name"@,
            OpenError::Failed(why) => why@,
            OpenError::NotComic(p) => p@ + " isn't a comic archive or an image"@,
            OpenError::Unpack { path, tried } => "couldn't unpack "@ + path@ + ". "@ + (if tried@.len()
                == 0 {
                "No 7-Zip or unrar was found on this machine."@
            } else {
                "Tried: "@ + crate::text::joined(crate::text::views(tried@), "; "@) + "."@
            }) + " Install 7-Zip from 7-zip.org (the `7zz` build), or unrar (`apt install unrar`, `brew install carlocab/personal/unrar`)."@,
        }
    }

    pub fn message(&self) -> (r: String)
        ensures
            r@ == self.text(),
    {
        match self {
            OpenError::NoImages(p) => {
                let mut s = String::from_str("no images in ");
                s.append(p.as_str());
                s
            },
            OpenError::NoPages(p) => {
                let mut s = p.clone();
                s.append(" has no pages");
                s
            },
            OpenError::NoFileName => String::from_str("that path has no file name"),
            OpenError::Failed(why) => why.clone(),
            OpenError::NotComic(p) => {
                let mut s = p.clone();
                s.append(" isn't a comic archive or an image");
                s
            },
            OpenError::Unpack { path, tried } => {
                let mut s = String::from_str("couldn't unpack ");
                s.append(path.as_str());
                s.append(". ");
                if tried.len() == 0 {
                    s.append("No 7-Zip or unrar was found on this machine.");
                } else {
                    s.append("Tried: ");
                    crate::text::push_joined(&mut s, tried, "; ");
                    s.append(".");
                }
                s.append(
                    " Install 7-Zip from 7-zip.org (the `7zz` build), or unrar (`apt install unrar`, `brew install carlocab/personal/unrar`).",
                );
                s
            },
        }
    }
}

} // verus!

verus! {

/// One item of a zip archive's directory.
#[derive(Debug)]
pub struct ZipItem {
    pub index: usize,
    pub name: String,
    pub is_dir: bool,
}

/// The pages a zip listing holds: every file that is a wanted image, in
/// archive order.
pub open spec fn zip_pages(items: Seq<ZipItem>) -> Seq<Entry>
    decreases items.len(),
{
    if items.len() == 0 {
        seq![]
    } else {
        let it = items.last();
        let rest = zip_pages(items.drop_last());
        if !it.is_dir && crate::names::wanted_name(it.name@) {
            rest.push(Entry::Zip { index: it.index, name: it.name })
        } else {
            rest
        }
    }
}

impl Book {
    /// A book of the images found under `dir`. Its title comes from `dir` when
    /// the book was opened as a folder, else from the image that was opened.
    pub fn from_dir(dir: &str, title_from: &str, title_from_is_dir: bool, found: Vec<Entry>) -> (r:
        Result<Book, OpenError>)
        ensures
            found@.len() == 0 ==> (r matches Err(OpenError::NoImages(d)) && d@ == dir@),
            found@.len() > 0 ==> (r matches Ok(book) && {
                &&& book.title@ == crate::names::display_of(
                    if title_from_is_dir {
                        dir@
                    } else {
                        title_from@
                    },
                )
                &&& book.path@ == dir@
                &&& naturally_sorted(found@, book.entries@)
                &&& book.kind == Kind::Loose
                &&& book._scratch is None
            }),
    {
        if found.len() == 0 {
            return Err(OpenError::NoImages(String::from_str(dir)));
        }
        let mut entries = found;
        sort_entries(&mut entries);
        let title = if title_from_is_dir {
            crate::names::display_name(dir)
        } else {
            crate::names::display_name(title_from)
        };
        Ok(Book { title, path: String::from_str(dir), entries, kind: Kind::Loose, _scratch: None })
    }

    /// A book of the wanted images in a zip archive's listing.
    pub fn from_zip(path: &str, listing: Vec<ZipItem>) -> (r: Result<Book, OpenError>)
        ensures
            zip_pages(listing@).len() == 0 ==> (r matches Err(OpenError::NoImages(p)) && p@ == path@),
            zip_pages(listing@).len() > 0 ==> (r matches Ok(book) && {
                &&& book.title@ == crate::names::display_of(path@)
                &&& book.path@ == path@
                &&& naturally_sorted(zip_pages(listing@), book.entries@)
                &&& book.kind == Kind::Zip
                &&& book._scratch is None
            }),
    {
        let mut entries: Vec<Entry> = Vec::new();
        let mut i: usize = 0;
        while i < listing.len()
            invariant
                i <= listing@.len(),
                entries@ == zip_pages(listing@.take(i as int)),
            decreases listing@.len() - i,
        {
            let it = &listing[i];
            proof {
                assert(listing@.take(i + 1).drop_last() =~= listing@.take(i as int));
                assert(listing@.take(i + 1).last() == listing@[i as int]);
            }
            if !it.is_dir && crate::names::wanted(it.name.as_str()) {
                entries.push(Entry::Zip { index: it.index, name: it.name.clone() });
            }
            i = i + 1;
        }
        assert(listing@.take(listing@.len() as int) =~= listing@);
        if entries.len() == 0 {
            return Err(OpenError::NoImages(String::from_str(path)));
        }
        let ghost unsorted = entries@;
        sort_entries(&mut entries);
        Ok(
            Book {
                title: crate::names::display_name(path),
                path: String::from_str(path),
                entries,
                kind: Kind::Zip,
                _scratch: None,
            },
        )
    }
}

} // verus!

verus! {

impl Book {
    /// A book of the pages an outside tool unpacked into `scratch`. When the
    /// tools all failed, the error lists what was tried.
    pub fn from_external(
        path: &str,
        unpacked: bool,
        tried: Vec<String>,
        found: Vec<Entry>,
        scratch: ScratchDir,
    ) -> (r: Result<Book, OpenError>)
        ensures
            !unpacked ==> (r matches Err(OpenError::Unpack { path: p, tried: t }) && p@ == path@
                && t@ == tried@),
            unpacked && found@.len() == 0 ==> (r matches Err(OpenError::NoImages(p)) && p@
                == path@),
            unpacked && found@.len() > 0 ==> (r matches Ok(book) && {
                &&& book.title@ == crate::names::display_of(path@)
                &&& book.path@ == path@
                &&& naturally_sorted(found@, book.entries@)
                &&& book.kind == Kind::Loose
                &&& book._scratch == Some(scratch)
            }),
    {
        if !unpacked {
            return Err(OpenError::Unpack { path: String::from_str(path), tried });
        }
        if found.len() == 0 {
            return Err(OpenError::NoImages(String::from_str(path)));
        }
        let mut entries = found;
        sort_entries(&mut entries);
        Ok(
            Book {
                title: crate::names::display_name(path),
                path: String::from_str(path),
                entries,
                kind: Kind::Loose,
                _scratch: Some(scratch),
            },
        )
    }

    /// A PDF is just a page count: each page is rendered when it is wanted.
    pub fn from_pdf(path: &str, count: usize) -> (r: Result<Book, OpenError>)
        ensures
            count == 0 ==> (r matches Err(OpenError::NoPages(p)) && p@ == path@),
            count > 0 ==> (r matches Ok(book) && {
                &&& book.title@ == crate::names::display_of(path@)
                &&& book.path@ == path@
                &&& book.entries@.len() == count
                &&& forall|i: int| 0 <= i < count ==> #[trigger] book.entries@[i] == (Entry::Pdf { index: i as usize })
                &&& book.kind == Kind::Pdf
                &&& book._scratch is None
            }),
    {
        if count == 0 {
            return Err(OpenError::NoPages(String::from_str(path)));
        }
        let mut entries: Vec<Entry> = Vec::new();
        let mut i: usize = 0;
        while i < count
            invariant
                i <= count,
                entries@.len() == i,
                forall|k: int| 0 <= k < i ==> #[trigger] entries@[k] == (Entry::Pdf { index: k as usize }),
            decreases count - i,
        {
            entries.push(Entry::Pdf { index: i });
            i = i + 1;
        }
        Ok(
            Book {
                title: crate::names::display_name(path),
                path: String::from_str(path),
                entries,
                kind: Kind::Pdf,
                _scratch: None,
            },
        )
    }
}

/// What opening a path takes.
#[derive(Debug)]
pub enum OpenPlan {
    /// Read the folder's images.
    Folder,
    /// Read the zip archive's listing.
    Zip,
    /// Unpack with 7-Zip or unrar into a scratch directory.
    External,
    /// Count the PDF's pages.
    Pdf,
    /// A loose image: read the folder it is in and start on it.
    Image { dir: String },
}

/// Decides how to open a path, from what it names and whether it is a directory.
pub fn plan_open(path: &str, is_dir: bool) -> (r: Result<OpenPlan, OpenError>)
    ensures
        is_dir ==> r matches Ok(OpenPlan::Folder),
        !is_dir && archive_of(path@) == Some(ArchiveKind::Zip) ==> r matches Ok(OpenPlan::Zip),
        !is_dir && archive_of(path@) == Some(ArchiveKind::External) ==> r matches Ok(
            OpenPlan::External,
        ),
        !is_dir && archive_of(path@) == Some(ArchiveKind::Pdf) ==> r matches Ok(OpenPlan::Pdf),
        !is_dir && archive_of(path@) is None && file_name_of(path@) is None ==> r matches Err(
            OpenError::NoFileName,
        ),
        !is_dir && archive_of(path@) is None && file_name_of(path@) is Some && !names_image(
            file_name_of(path@)->0,
        ) ==> (r matches Err(OpenError::NotComic(p)) && p@ == path@),
        !is_dir && archive_of(path@) is None && file_name_of(path@) is Some && names_image(
            file_name_of(path@)->0,
        ) ==> (r matches Ok(OpenPlan::Image { dir }) && dir@ == folder_of(path@)),
{
    if is_dir {
        return Ok(OpenPlan::Folder);
    }
    match is_archive(path) {
        Some(ArchiveKind::Zip) => Ok(OpenPlan::Zip),
        Some(ArchiveKind::External) => Ok(OpenPlan::External),
        Some(ArchiveKind::Pdf) => Ok(OpenPlan::Pdf),
        None => {
            // A loose image: read the whole folder, start on that page.
            let name = match file_name(path) {
                Some(n) => n,
                None => return Err(OpenError::NoFileName),
            };
            if !is_image(name.as_str()) {
                return Err(OpenError::NotComic(String::from_str(path)));
            }
            Ok(OpenPlan::Image { dir: folder(path) })
        },
    }
}

/// Whether two paths name the same place, as `std::path::Path`'s `==` has it
/// (component by component).
pub uninterp spec fn paths_equal(a: Seq<char>, b: Seq<char>) -> bool;

/// `Path == Path`.
#[verifier::external_body]
fn same_path(a: &str, b: &str) -> (r: bool)
    ensures
        r == paths_equal(a@, b@),
{
    std::path::Path::new(a) == std::path::Path::new(b)
}

/// An entry that is the file at `path`.
pub open spec fn shows_file(e: Entry, path: Seq<char>) -> bool {
    match e {
        Entry::File(p) => paths_equal(p@, path),
        _ => false,
    }
}

/// The page to land on when one image out of a folder was opened: that
/// image's place, or the first page when it is not among the entries.
pub fn start_page(entries: &Vec<Entry>, path: &str) -> (r: usize)
    ensures
        (r < entries@.len() && shows_file(entries@[r as int], path@) && forall|q: int|
            0 <= q < r ==> !shows_file(#[trigger] entries@[q], path@)) || (r == 0 && forall|q: int|
            0 <= q < entries@.len() ==> !shows_file(#[trigger] entries@[q], path@)),
{
    let mut i: usize = 0;
    while i < entries.len()
        invariant
            i <= entries@.len(),
            forall|q: int| 0 <= q < i ==> !shows_file(#[trigger] entries@[q], path@),
        decreases entries@.len() - i,
    {
        match &entries[i] {
            Entry::File(p) => {
                if same_path(p.as_str(), path) {
                    return i;
                }
            },
            _ => {},
        }
        i = i + 1;
    }
    0
}

} // verus!

verus! {

/// What the application gathered when it carried out an [`OpenPlan`].
#[derive(Debug)]
pub enum Found {
    /// The path is a folder: the images found under it.
    Folder(Vec<Entry>),
    /// A zip archive's listing.
    Zip(Vec<ZipItem>),
    /// An archive handed to 7-Zip or unrar: whether one of them unpacked it,
    /// what was tried, the images found in the scratch directory, and that
    /// directory.
    Unpacked { unpacked: bool, tried: Vec<String>, found: Vec<Entry>, scratch: ScratchDir },
    /// A PDF's page count.
    Pdf(usize),
    /// A loose image: the images found in the folder it is in.
    Image(Vec<Entry>),
}

/// `r` is the page to land on among `entries` when the file at `path` was
/// opened: its first place, or the first page when it is not there.
pub open spec fn lands_on(entries: Seq<Entry>, path: Seq<char>, r: int) -> bool {
    ||| (0 <= r < entries.len() && shows_file(entries[r], path) && forall|q: int|
        0 <= q < r ==> !shows_file(#[trigger] entries[q], path))
    ||| (r == 0 && forall|q: int| 0 <= q < entries.len() ==> !shows_file(#[trigger] entries[q], path))
}

/// `r` is what building a book for `path` from `found` gives: the book and
/// the page to land on, or why there is none.
pub open spec fn opened(path: Seq<char>, found: Found, r: Result<(Book, usize), OpenError>) -> bool {
    match found {
        Found::Folder(f) => match r {
            Ok((book, start)) => f@.len() > 0 && start == 0 && book.title@
                == crate::names::display_of(path) && book.path@ == path
                && naturally_sorted(f@, book.entries@) && book.kind == Kind::Loose
                && book._scratch is None,
            Err(e) => f@.len() == 0 && (e matches OpenError::NoImages(d) && d@ == path),
        },
        Found::Zip(listing) => match r {
            Ok((book, start)) => zip_pages(listing@).len() > 0 && start == 0
                && book.title@ == crate::names::display_of(path) && book.path@ == path
                && naturally_sorted(zip_pages(listing@), book.entries@) && book.kind
                == Kind::Zip && book._scratch is None,
            Err(e) => zip_pages(listing@).len() == 0 && (e matches OpenError::NoImages(d)
                && d@ == path),
        },
        Found::Unpacked { unpacked, tried, found, scratch } => match r {
            Ok((book, start)) => unpacked && found@.len() > 0 && start == 0
                && book.title@ == crate::names::display_of(path) && book.path@ == path
                && naturally_sorted(found@, book.entries@) && book.kind == Kind::Loose
                && book._scratch == Some(scratch),
            Err(e) => if !unpacked {
                e matches OpenError::Unpack { path: p, tried: t } && p@ == path && t@
                    == tried@
            } else {
                found@.len() == 0 && (e matches OpenError::NoImages(d) && d@ == path)
            },
        },
        Found::Pdf(count) => match r {
            Ok((book, start)) => count > 0 && start == 0 && book.title@
                == crate::names::display_of(path) && book.path@ == path
                && book.entries@.len() == count && (forall|i: int|
                0 <= i < count ==> #[trigger] book.entries@[i] == (Entry::Pdf {
                    index: i as usize,
                })) && book.kind == Kind::Pdf && book._scratch is None,
            Err(e) => count == 0 && (e matches OpenError::NoPages(d) && d@ == path),
        },
        Found::Image(f) => match r {
            Ok((book, start)) => f@.len() > 0 && book.title@ == crate::names::display_of(
                path,
            ) && book.path@ == folder_of(path) && naturally_sorted(f@, book.entries@)
                && book.kind == Kind::Loose && book._scratch is None && lands_on(
                book.entries@,
                path,
                start as int,
            ),
            Err(e) => f@.len() == 0 && (e matches OpenError::NoImages(d) && d@ == folder_of(
                path,
            )),
        },
    }
}

impl Book {
    /// Builds the book for `path` from what was gathered for it, and the page
    /// to land on: non-zero only when one image out of a folder was opened.
    pub fn from_found(path: &str, found: Found) -> (r: Result<(Book, usize), OpenError>)
        ensures
            r matches Ok((book, start)) ==> start < book.entries@.len(),
            opened(path@, found, r),
    {
        match found {
            Found::Folder(f) => {
                let book = Book::from_dir(path, path, true, f)?;
                Ok((book, 0))
            },
            Found::Zip(listing) => {
                let book = Book::from_zip(path, listing)?;
                Ok((book, 0))
            },
            Found::Unpacked { unpacked, tried, found, scratch } => {
                let book = Book::from_external(path, unpacked, tried, found, scratch)?;
                Ok((book, 0))
            },
            Found::Pdf(count) => {
                let book = Book::from_pdf(path, count)?;
                Ok((book, 0))
            },
            Found::Image(f) => {
                let dir = folder(path);
                let book = Book::from_dir(dir.as_str(), path, false, f)?;
                let start = start_page(&book.entries, path);
                Ok((book, start))
            },
        }
    }
}

} // verus!

verus! {

/// A zip archive whose first page cannot be read back (zip also allows zstd,
/// lzma and xz, which the reader does not decode) is handed to 7-Zip or unrar
/// instead.
pub fn falls_back(kind: Kind, first_page_readable: bool) -> (r: bool)
    ensures
        r == (kind == Kind::Zip && !first_page_readable),
{
    match kind {
        Kind::Zip => !first_page_readable,
        _ => false,
    }
}

} // verus!

verus! {

/// What carrying out `plan` for `path` gives: the book built from what the
/// gathering found, or the gathering's own failure.
pub open spec fn carried_out<G: Fn(&OpenPlan) -> Result<Found, String>>(
    gather: G,
    plan: OpenPlan,
    path: Seq<char>,
    r: Result<(Book, usize), OpenError>,
) -> bool {
    ||| exists|f: Found| #[trigger] gather.ensures((&plan,), Ok(f)) && opened(path, f, r)
    ||| exists|m: String|
        #[trigger] gather.ensures((&plan,), Err(m)) && r == Err::<(Book, usize), OpenError>(
            OpenError::Failed(m),
        )
}

/// What opening a zip archive gives. A zip book stands when its first page
/// reads back; when it does not, the archive is unpacked by an outside tool
/// instead. A zip that yields no book at all is not retried.
pub open spec fn zip_carried_out<
    G: Fn(&OpenPlan) -> Result<Found, String>,
    R: Fn(&Book) -> bool,
>(gather: G, readable: R, path: Seq<char>, r: Result<(Book, usize), OpenError>) -> bool {
    ||| exists|m: String|
        #[trigger] gather.ensures((&OpenPlan::Zip,), Err(m)) && r == Err::<(Book, usize), OpenError>(
            OpenError::Failed(m),
        )
    ||| exists|f: Found|
        #[trigger] gather.ensures((&OpenPlan::Zip,), Ok(f)) && {
            ||| opened(path, f, r) && (r matches Ok((b, s)) ==> (b.kind == Kind::Zip
                ==> readable.ensures((&b,), true)))
            ||| exists|first: (Book, usize)|
                #[trigger] opened(path, f, Ok(first)) && first.0.kind == Kind::Zip
                    && readable.ensures((&first.0,), false) && carried_out(
                    gather,
                    OpenPlan::External,
                    path,
                    r,
                )
        }
}

impl Book {
    /// Opens whatever `path` points at. `gather` carries out what the path
    /// calls for (reading a folder, listing a zip, unpacking with an outside
    /// tool, counting a PDF's pages); `readable` says whether a zip book's
    /// first page reads back. Gives the book and the page to land on, non-zero
    /// only when one image out of a folder was opened. A path that is neither
    /// an archive nor an image is refused before anything is read.
    pub fn open<G: Fn(&OpenPlan) -> Result<Found, String>, R: Fn(&Book) -> bool>(
        path: &str,
        is_dir: bool,
        gather: &G,
        readable: &R,
    ) -> (r: Result<(Book, usize), OpenError>)
        requires
            forall|p: &OpenPlan| #[trigger] gather.requires((p,)),
            forall|b: &Book| #[trigger] readable.requires((b,)),
        ensures
            r matches Ok((book, start)) ==> start < book.entries@.len(),
            is_dir ==> carried_out(*gather, OpenPlan::Folder, path@, r),
            !is_dir && archive_of(path@) == Some(ArchiveKind::Zip) ==> zip_carried_out(
                *gather,
                *readable,
                path@,
                r,
            ),
            !is_dir && archive_of(path@) == Some(ArchiveKind::External) ==> carried_out(
                *gather,
                OpenPlan::External,
                path@,
                r,
            ),
            !is_dir && archive_of(path@) == Some(ArchiveKind::Pdf) ==> carried_out(
                *gather,
                OpenPlan::Pdf,
                path@,
                r,
            ),
            !is_dir && archive_of(path@) is None && file_name_of(path@) is None ==> r matches Err(
                OpenError::NoFileName,
            ),
            !is_dir && archive_of(path@) is None && file_name_of(path@) is Some && !names_image(
                file_name_of(path@)->0,
            ) ==> (r matches Err(OpenError::NotComic(p)) && p@ == path@),
            !is_dir && archive_of(path@) is None && file_name_of(path@) is Some && names_image(
                file_name_of(path@)->0,
            ) ==> exists|d: String|
                d@ == folder_of(path@) && #[trigger] carried_out(
                    *gather,
                    OpenPlan::Image { dir: d },
                    path@,
                    r,
                ),
    {
        let plan = plan_open(path, is_dir)?;
        let outcome = gather(&plan);
        let found = match outcome {
            Ok(f) => f,
            Err(m) => {
                assert(carried_out(*gather, plan, path@, Err(OpenError::Failed(m))));
                return Err(OpenError::Failed(m));
            },
        };
        let ghost gathered = found;
        let (book, start) = match Book::from_found(path, found) {
            Ok(opened) => opened,
            Err(e) => {
                assert(carried_out(*gather, plan, path@, Err(e)));
                return Err(e);
            },
        };
        assert(carried_out(*gather, plan, path@, Ok((book, start))));
        let zip_plan = match plan {
            OpenPlan::Zip => true,
            _ => false,
        };
        if zip_plan && book.kind == Kind::Zip {
            let ok = readable(&book);
            if falls_back(book.kind, ok) {
                let ghost first = book;
                let ghost first_start = start;
                let again = match gather(&OpenPlan::External) {
                    Ok(f) => f,
                    Err(m) => {
                        assert(carried_out(*gather, OpenPlan::External, path@, Err(OpenError::Failed(m))));
                        return Err(OpenError::Failed(m));
                    },
                };
                let ghost refound = again;
                let r = Book::from_found(path, again);
                proof {
                    assert(carried_out(*gather, OpenPlan::External, path@, r));
                    assert(opened(path@, gathered, Ok((first, first_start))));
                }
                return r;
            }
        }
        Ok((book, start))
    }
}

} // verus!
