//! RAR and 7z archives are unpacked by 7-Zip or unrar, whichever is on the
//! machine: where to look for them, what to run, and how a failure is told.

use crate::names::{join_path, path_joined};
use crate::text::{
    chars_of, contains_chars, contains_seq, lines, push_range, split_lines, trim, trim_range,
    views,
};
use vstd::prelude::*;
use vstd::string::StringExecFns;

verus! {

/// What `String::from_utf8_lossy` makes of some bytes: the text, with each
/// invalid sequence replaced by U+FFFD.
pub uninterp spec fn lossy(bytes: Seq<u8>) -> Seq<char>;

/// `String::from_utf8_lossy`, taken as an owned string.
#[verifier::external_body]
fn from_utf8_lossy(bytes: &[u8]) -> (r: String)
    ensures
        r@ == lossy(bytes@),
{
    String::from_utf8_lossy(bytes).into_owned()
}

/// `std::path::MAIN_SEPARATOR`: '/' on Unix, '\\' on Windows.
#[verifier::external_body]
fn main_separator() -> (c: char)
    ensures
        c == '/' || c == '\\',
{
    std::path::MAIN_SEPARATOR
}

/// Why a tool failed, from what it wrote to stderr: its last line, trimmed,
/// or "failed" when it wrote nothing.
pub open spec fn reason_of(text: Seq<char>) -> Seq<char> {
    let ls = lines(text);
    if ls.len() == 0 {
        "failed"@
    } else {
        trim(ls.last())
    }
}

fn reason(text: &str) -> (r: String)
    ensures
        r@ == reason_of(text@),
{
    let cs = chars_of(text);
    let ranges = split_lines(&cs);
    if ranges.len() == 0 {
        return String::from_str("failed");
    }
    let (a, b) = ranges[ranges.len() - 1];
    proof {
        let k = ranges@.len() - 1;
        assert(crate::text::texts(cs@, ranges@)[k] == cs@.subrange(a as int, b as int));
    }
    let (x, y) = trim_range(&cs, a, b);
    let mut out = String::new();
    push_range(&mut out, &cs, x, y);
    out
}

/// What is said of a 7-Zip run that failed: the program, and a hint when the
/// reason shows a 7-Zip built without the RAR codec (on Debian and Ubuntu that
/// codec lives in the separate p7zip-rar package).
pub open spec fn seven_zip_note(exe: Seq<char>, stderr: Seq<u8>) -> Seq<char> {
    if contains_seq(reason_of(lossy(stderr)), "Unsupported Method"@) {
        exe + " (this 7-Zip has no RAR codec - try p7zip-rar, or the 7zz build)"@
    } else {
        exe
    }
}

pub fn seven_zip_failure(exe: &str, stderr: &[u8]) -> (r: String)
    ensures
        r@ == seven_zip_note(exe@, stderr@),
{
    let why = reason(from_utf8_lossy(stderr).as_str());
    let wc = chars_of(why.as_str());
    let pattern = chars_of("Unsupported Method");
    let mut out = String::from_str(exe);
    if contains_chars(wc.as_slice(), pattern.as_slice()) {
        out.append(" (this 7-Zip has no RAR codec - try p7zip-rar, or the 7zz build)");
    }
    out
}

/// What is said of an unrar run that failed: the program and why.
pub open spec fn unrar_note(exe: Seq<char>, stderr: Seq<u8>) -> Seq<char> {
    exe + " ("@ + reason_of(lossy(stderr)) + ")"@
}

pub fn unrar_failure(exe: &str, stderr: &[u8]) -> (r: String)
    ensures
        r@ == unrar_note(exe@, stderr@),
{
    let why = reason(from_utf8_lossy(stderr).as_str());
    let mut out = String::from_str(exe);
    out.append(" (");
    out.append(why.as_str());
    out.append(")");
    out
}

/// What is said of a 7-Zip that could not be started: the program and the error.
pub fn spawn_failure(exe: &str, error: &str) -> (r: String)
    ensures
        r@ == exe@ + " ("@ + error@ + ")"@,
{
    let mut out = String::from_str(exe);
    out.append(" (");
    out.append(error);
    out.append(")");
    out
}

/// Where a Windows program folder may hold a 7-Zip: the official build,
/// 7-Zip ZS, and NanaZip.
pub open spec fn install_spots(base: Seq<char>) -> Seq<Seq<char>> {
    seq![
        path_joined(path_joined(base, "7-Zip"@), "7z.exe"@),
        path_joined(path_joined(base, "7-Zip-Zstandard"@), "7z.exe"@),
        path_joined(path_joined(base, "NanaZip"@), "7z.exe"@),
    ]
}

pub open spec fn spots_under(bases: Seq<Seq<char>>) -> Seq<Seq<char>>
    decreases bases.len(),
{
    if bases.len() == 0 {
        seq![]
    } else {
        spots_under(bases.drop_last()) + install_spots(bases.last())
    }
}

/// The 7-Zip programs to try, best first: 7zz and 7zzs (the current official
/// builds), then p7zip's 7z and 7za, which cannot read RAR5; then the
/// installs under each of the given program folders.
pub open spec fn candidates_of(bases: Seq<Seq<char>>) -> Seq<Seq<char>> {
    seq!["7zz"@, "7zzs"@, "7z"@, "7za"@] + spots_under(bases)
}

pub fn seven_zip_candidates(bases: &Vec<String>) -> (r: Vec<String>)
    ensures
        views(r@) == candidates_of(views(bases@)),
{
    let mut out: Vec<String> = Vec::new();
    out.push(String::from_str("7zz"));
    out.push(String::from_str("7zzs"));
    out.push(String::from_str("7z"));
    out.push(String::from_str("7za"));
    proof {
        assert(views(out@) =~= seq!["7zz"@, "7zzs"@, "7z"@, "7za"@]);
        assert(views(bases@).take(0) =~= Seq::<Seq<char>>::empty());
    }
    let mut i: usize = 0;
    while i < bases.len()
        invariant
            i <= bases@.len(),
            views(out@) == seq!["7zz"@, "7zzs"@, "7z"@, "7za"@] + spots_under(
                views(bases@).take(i as int),
            ),
        decreases bases@.len() - i,
    {
        let base = bases[i].as_str();
        let a = join_path(join_path(base, "7-Zip").as_str(), "7z.exe");
        let b = join_path(join_path(base, "7-Zip-Zstandard").as_str(), "7z.exe");
        let c = join_path(join_path(base, "NanaZip").as_str(), "7z.exe");
        let ghost before = out@;
        out.push(a);
        out.push(b);
        out.push(c);
        proof {
            let vb = views(bases@);
            assert(vb.take(i + 1).drop_last() =~= vb.take(i as int));
            assert(vb.take(i + 1).last() == bases@[i as int]@);
            assert(views(out@) =~= views(before) + install_spots(bases@[i as int]@));
        }
        i = i + 1;
    }
    assert(views(bases@).take(bases@.len() as int) =~= views(bases@));
    out
}

/// The programs tried after 7-Zip: RARLAB's unrar, then unrar-free.
pub fn unrar_programs() -> (r: Vec<String>)
    ensures
        views(r@) == seq!["unrar"@, "unrar-free"@],
{
    let mut out: Vec<String> = Vec::new();
    out.push(String::from_str("unrar"));
    out.push(String::from_str("unrar-free"));
    assert(views(out@) =~= seq!["unrar"@, "unrar-free"@]);
    out
}

/// 7-Zip's arguments: extract with paths, answer yes to everything, print
/// neither output nor progress, into `into`.
pub fn seven_zip_args(archive: &str, into: &str) -> (r: Vec<String>)
    ensures
        views(r@) == seq!["x"@, "-y"@, "-bso0"@, "-bsp0"@, "-o"@ + into@, archive@],
{
    let mut out: Vec<String> = Vec::new();
    out.push(String::from_str("x"));
    out.push(String::from_str("-y"));
    out.push(String::from_str("-bso0"));
    out.push(String::from_str("-bsp0"));
    let mut o = String::from_str("-o");
    o.append(into);
    out.push(o);
    out.push(String::from_str(archive));
    assert(views(out@) =~= seq!["x"@, "-y"@, "-bso0"@, "-bsp0"@, "-o"@ + into@, archive@]);
    out
}

/// unrar's arguments: extract with paths, overwrite, stay quiet; it wants a
/// trailing separator on the destination.
pub fn unrar_args(archive: &str, into: &str) -> (r: Vec<String>)
    ensures
        exists|sep: char|
            (sep == '/' || sep == '\\') && views(r@) == seq![
                "x"@,
                "-o+"@,
                "-idq"@,
                archive@,
                into@.push(sep),
            ],
{
    let sep = main_separator();
    let mut out: Vec<String> = Vec::new();
    out.push(String::from_str("x"));
    out.push(String::from_str("-o+"));
    out.push(String::from_str("-idq"));
    out.push(String::from_str(archive));
    let mut d = String::from_str(into);
    crate::text::push_char(&mut d, sep);
    out.push(d);
    assert(views(out@) =~= seq!["x"@, "-o+"@, "-idq"@, archive@, into@.push(sep)]);
    out
}

} // verus!
