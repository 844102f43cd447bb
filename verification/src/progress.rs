//! Remembers where you stopped reading. One line per comic, newest first,
//! written as "page<TAB>path".

use crate::text::{
    line_block, lemma_lines_of_block, chars_of, decimal, find_first_in, lines, parse_usize, push_decimal, push_range, read_usize,
    same_range, split_lines, split_once, texts,
};
use vstd::prelude::*;
use vstd::string::StringExecFns;

verus! {

/// How many comics are remembered.
pub const CAP: usize = 500;

/// A path as it is stored: tabs and newlines would break the line format, so
/// they become spaces.
pub open spec fn key_of(path: Seq<char>) -> Seq<char> {
    path.map_values(|c: char| if c == '\t' || c == '\n' { ' ' } else { c })
}

pub fn bookmark_key(path: &str) -> (r: String)
    ensures
        r@ == key_of(path@),
{
    let cs = chars_of(path);
    let mut out = String::new();
    let mut i: usize = 0;
    while i < cs.len()
        invariant
            i <= cs@.len(),
            cs@ == path@,
            out@ == key_of(cs@.take(i as int)),
        decreases cs@.len() - i,
    {
        let c = cs[i];
        crate::text::push_char(&mut out, if c == '\t' || c == '\n' { ' ' } else { c });
        assert(key_of(cs@.take(i + 1)) =~= key_of(cs@.take(i as int)).push(
            if c == '\t' || c == '\n' { ' ' } else { c },
        ));
        i = i + 1;
    }
    assert(cs@.take(cs@.len() as int) =~= cs@);
    out
}

/// The page remembered for `wanted`: the first line whose path is `wanted`
/// decides, and a page that does not read as a number gives nothing.
pub open spec fn find_page(ls: Seq<Seq<char>>, wanted: Seq<char>) -> Option<usize>
    decreases ls.len(),
{
    if ls.len() == 0 {
        None
    } else {
        match split_once(ls[0], '\t') {
            Some(parts) => if parts.1 == wanted {
                parse_usize(parts.0)
            } else {
                find_page(ls.drop_first(), wanted)
            },
            None => find_page(ls.drop_first(), wanted),
        }
    }
}

/// The page stored for `wanted` in the bookmark file's text.
pub fn last_page_in(text: &str, wanted: &str) -> (r: Option<usize>)
    ensures
        r == find_page(lines(text@), wanted@),
{
    let cs = chars_of(text);
    let wv = chars_of(wanted);
    let ranges = split_lines(&cs);
    let ghost ls = lines(cs@);
    let mut k: usize = 0;
    assert(ls.skip(0) =~= ls);
    while k < ranges.len()
        invariant
            k <= ranges@.len(),
            cs@ == text@,
            wv@ == wanted@,
            texts(cs@, ranges@) == ls,
            ls == lines(cs@),
            forall|q: int| 0 <= q < ranges@.len() ==> #[trigger] ranges@[q].0 <= ranges@[q].1 <= cs@.len(),
            find_page(ls, wanted@) == find_page(ls.skip(k as int), wanted@),
        decreases ranges@.len() - k,
    {
        let (a, b) = ranges[k];
        let ghost line = cs@.subrange(a as int, b as int);
        assert(ls[k as int] == line);
        assert(ls.skip(k as int).drop_first() =~= ls.skip(k + 1));
        assert(ls.skip(k as int)[0] == line);
        match find_first_in(&cs, a, b, '\t') {
            Some(t) => {
                assert(line.take(t - a) =~= cs@.subrange(a as int, t as int));
                assert(line.skip(t - a + 1) =~= cs@.subrange(t + 1, b as int));
                if same_range(&cs, t + 1, b, &wv) {
                    return read_usize(&cs, a, t);
                }
            },
            None => {},
        }
        k = k + 1;
    }
    assert(ls.skip(k as int) =~= Seq::<Seq<char>>::empty());
    None
}

} // verus!

verus! {

/// A line survives a rewrite when it is a bookmark for some other comic.
pub open spec fn keeps(line: Seq<char>, wanted: Seq<char>) -> bool {
    match split_once(line, '\t') {
        Some(parts) => parts.1 != wanted,
        None => false,
    }
}

/// The lines that survive, in order.
pub open spec fn kept(ls: Seq<Seq<char>>, wanted: Seq<char>) -> Seq<Seq<char>>
    decreases ls.len(),
{
    if ls.len() == 0 {
        seq![]
    } else {
        let r = kept(ls.drop_last(), wanted);
        if keeps(ls.last(), wanted) {
            r.push(ls.last())
        } else {
            r
        }
    }
}

/// The first `n` of `ls`, or all of them when there are fewer.
pub open spec fn at_most<T>(ls: Seq<T>, n: nat) -> Seq<T> {
    if ls.len() <= n {
        ls
    } else {
        ls.take(n as int)
    }
}

/// The bookmark file after reading `wanted` up to `page`: that bookmark first,
/// then the older ones for other comics, up to `CAP` lines in all.
pub open spec fn recorded(previous: Seq<char>, wanted: Seq<char>, page: nat) -> Seq<char> {
    decimal(page) + seq!['\t'] + wanted + seq!['\n'] + line_block(
        at_most(kept(lines(previous), wanted), (CAP - 1) as nat),
    )
}

proof fn lemma_kept_append(a: Seq<Seq<char>>, b: Seq<Seq<char>>, wanted: Seq<char>)
    ensures
        kept(a + b, wanted) == kept(a, wanted) + kept(b, wanted),
    decreases b.len(),
{
    if b.len() == 0 {
        assert(a + b =~= a);
        assert(kept(a, wanted) + kept(b, wanted) =~= kept(a, wanted));
    } else {
        assert((a + b).drop_last() =~= a + b.drop_last());
        assert((a + b).last() == b.last());
        lemma_kept_append(a, b.drop_last(), wanted);
        if keeps(b.last(), wanted) {
            assert(kept(a, wanted) + kept(b, wanted) =~= (kept(a, wanted) + kept(b.drop_last(), wanted)).push(b.last()));
        }
    }
}

/// The bookmark file's new text after reading `wanted` up to `page`.
#[verifier::spinoff_prover]
#[verifier::rlimit(30)]
pub fn remember_in(previous: &str, wanted: &str, page: usize) -> (r: String)
    ensures
        r@ == recorded(previous@, wanted@, page as nat),
{
    let cs = chars_of(previous);
    let wv = chars_of(wanted);
    let ranges = split_lines(&cs);
    let ghost ls = lines(cs@);
    let mut out = String::new();
    push_decimal(&mut out, page as u128);
    crate::text::push_char(&mut out, '\t');
    out.append(wanted);
    crate::text::push_char(&mut out, '\n');
    let ghost header = out@;
    let ghost mut taken: Seq<Seq<char>> = seq![];
    let mut count: usize = 1;
    let mut k: usize = 0;
    assert(ls.take(0) =~= Seq::<Seq<char>>::empty());
    while k < ranges.len() && count < CAP
        invariant
            k <= ranges@.len(),
            cs@ == previous@,
            wv@ == wanted@,
            texts(cs@, ranges@) == ls,
            ls == lines(cs@),
            forall|q: int| 0 <= q < ranges@.len() ==> #[trigger] ranges@[q].0 <= ranges@[q].1 <= cs@.len(),
            taken == kept(ls.take(k as int), wanted@),
            count == 1 + taken.len(),
            count <= CAP,
            out@ == header + line_block(taken),
        decreases ranges@.len() - k,
    {
        let (a, b) = ranges[k];
        let ghost line = cs@.subrange(a as int, b as int);
        assert(ls[k as int] == line);
        assert(ls.take(k + 1).drop_last() =~= ls.take(k as int));
        assert(ls.take(k + 1).last() == line);
        let ghost old_taken = taken;
        match find_first_in(&cs, a, b, '\t') {
            Some(t) => {
                assert(line.skip(t - a + 1) =~= cs@.subrange(t + 1, b as int));
                if !same_range(&cs, t + 1, b, &wv) {
                    assert(keeps(line, wanted@));
                    push_range(&mut out, &cs, a, b);
                    crate::text::push_char(&mut out, '\n');
                    proof {
                        taken = old_taken.push(line);
                        assert(taken.drop_last() =~= old_taken);
                        assert(out@ =~= header + line_block(taken));
                    }
                    count = count + 1;
                } else {
                    assert(!keeps(line, wanted@));
                }
            },
            None => {
                assert(!keeps(line, wanted@));
            },
        }
        k = k + 1;
    }
    proof {
        lemma_kept_append(ls.take(k as int), ls.skip(k as int), wanted@);
        assert(ls.take(k as int) + ls.skip(k as int) =~= ls);
        if k == ranges@.len() {
            assert(ls.skip(k as int) =~= Seq::<Seq<char>>::empty());
            assert(kept(ls.take(k as int), wanted@) + kept(ls.skip(k as int), wanted@) =~= taken);
        } else {
            assert(kept(ls, wanted@).take((CAP - 1) as int) =~= taken);
        }
    }
    out
}

} // verus!

verus! {

/// Reading back a comic's bookmark straight after recording it gives the page
/// that was recorded, whatever the file held before. (A key ending in '\r'
/// would lose that '\r' on the way back, as `str::lines` drops a '\r' before
/// a line's '\n'.)
pub proof fn bookmark_read_back(previous: Seq<char>, key: Seq<char>, page: usize)
    requires
        forall|i: int| 0 <= i < key.len() ==> #[trigger] key[i] != '\n',
        key.len() > 0 ==> key.last() != '\r',
    ensures
        find_page(lines(recorded(previous, key, page as nat)), key) == Some(page),
{
    let d = decimal(page as nat);
    crate::text::lemma_decimal_reads_back(page as nat);
    crate::text::lemma_parse_decimal(page);
    let h = d + seq!['\t'] + key;
    let block = line_block(at_most(kept(lines(previous), key), (CAP - 1) as nat));
    assert(recorded(previous, key, page as nat) =~= h + seq!['\n'] + block);
    assert forall|i: int| 0 <= i < h.len() implies #[trigger] h[i] != '\n' by {
        if i < d.len() {
            assert(h[i] == d[i]);
        } else if i > d.len() {
            assert(h[i] == key[i - d.len() - 1]);
        }
    }
    crate::text::lemma_lines_cons(h, block);
    if key.len() > 0 {
        assert(h.last() == key.last());
    }
    assert(crate::text::strip_cr(h) == h);
    crate::text::lemma_first_index_after(d, '\t', key);
    assert(h.take(d.len() as int) =~= d);
    assert(h.skip(d.len() as int + 1) =~= key);
}

} // verus!

verus! {

proof fn lemma_lines_have_no_newline(s: Seq<char>)
    ensures
        forall|k: int, i: int|
            0 <= k < lines(s).len() && 0 <= i < lines(s)[k].len() ==> #[trigger] lines(s)[k][i] != '\n',
    decreases s.len(),
{
    if s.len() > 0 {
        crate::text::lemma_line_len(s);
        let n = crate::text::line_len(s);
        if n < s.len() {
            lemma_lines_have_no_newline(s.skip(n as int + 1));
            let first = crate::text::strip_cr(s.take(n as int));
            assert forall|k: int, i: int|
                0 <= k < lines(s).len() && 0 <= i < lines(s)[k].len() implies #[trigger] lines(s)[k][i]
                != '\n' by {
                if k == 0 {
                    assert(lines(s)[0] == first);
                    assert(first[i] == s[i]);
                } else {
                    assert(lines(s)[k] == lines(s.skip(n as int + 1))[k - 1]);
                }
            }
        }
    }
}

proof fn lemma_kept_cons(ls: Seq<Seq<char>>, wanted: Seq<char>)
    requires
        ls.len() > 0,
    ensures
        kept(ls, wanted) == (if keeps(ls[0], wanted) {
            seq![ls[0]]
        } else {
            Seq::<Seq<char>>::empty()
        }) + kept(ls.drop_first(), wanted),
{
    let one = seq![ls[0]];
    lemma_kept_append(one, ls.drop_first(), wanted);
    assert(one + ls.drop_first() =~= ls);
    assert(one.drop_last() =~= Seq::<Seq<char>>::empty());
    assert(kept(one.drop_last(), wanted) =~= Seq::<Seq<char>>::empty());
    assert(one.last() == ls[0]);
    if keeps(ls[0], wanted) {
        assert(kept(one, wanted) =~= seq![ls[0]]);
    } else {
        assert(kept(one, wanted) =~= Seq::<Seq<char>>::empty());
    }
}

proof fn lemma_kept_shape(ls: Seq<Seq<char>>, wanted: Seq<char>)
    ensures
        kept(ls, wanted).len() <= ls.len(),
        forall|j: int|
            0 <= j < kept(ls, wanted).len() ==> exists|i: int|
                0 <= i < ls.len() && #[trigger] kept(ls, wanted)[j] == ls[i],
    decreases ls.len(),
{
    if ls.len() > 0 {
        lemma_kept_shape(ls.drop_last(), wanted);
        let r = kept(ls.drop_last(), wanted);
        assert forall|j: int| 0 <= j < kept(ls, wanted).len() implies exists|i: int|
            0 <= i < ls.len() && #[trigger] kept(ls, wanted)[j] == ls[i] by {
            if j < r.len() {
                let i = choose|i: int| 0 <= i < ls.drop_last().len() && r[j] == ls.drop_last()[i];
                assert(kept(ls, wanted)[j] == ls[i]);
            } else {
                assert(kept(ls, wanted)[j] == ls[ls.len() - 1]);
            }
        }
    }
}

/// The lines of a freshly recorded bookmark file: the new bookmark, then the
/// surviving older lines.
proof fn lemma_recorded_lines(previous: Seq<char>, key: Seq<char>, page: nat)
    requires
        forall|i: int| 0 <= i < key.len() ==> #[trigger] key[i] != '\n',
    ensures
        lines(recorded(previous, key, page)) == seq![crate::text::strip_cr(decimal(page) + seq!['\t'] + key)]
            + at_most(kept(lines(previous), key), (CAP - 1) as nat).map_values(
            |l: Seq<char>| crate::text::strip_cr(l),
        ),
{
    let d = decimal(page);
    crate::text::lemma_decimal_reads_back(page);
    let h = d + seq!['\t'] + key;
    let survivors = at_most(kept(lines(previous), key), (CAP - 1) as nat);
    assert(recorded(previous, key, page) =~= h + seq!['\n'] + line_block(survivors));
    assert forall|i: int| 0 <= i < h.len() implies #[trigger] h[i] != '\n' by {
        if i < d.len() {
            assert(h[i] == d[i]);
        } else if i > d.len() {
            assert(h[i] == key[i - d.len() - 1]);
        }
    }
    crate::text::lemma_lines_cons(h, line_block(survivors));
    lemma_lines_have_no_newline(previous);
    lemma_kept_shape(lines(previous), key);
    let all = kept(lines(previous), key);
    assert forall|k: int, i: int| 0 <= k < survivors.len() && 0 <= i < survivors[k].len() implies #[trigger] survivors[k][i]
        != '\n' by {
        assert(survivors[k] == all[k]);
        let j = choose|j: int| 0 <= j < lines(previous).len() && all[k] == lines(previous)[j];
        assert(lines(previous)[j][i] != '\n');
    }
    lemma_lines_of_block(survivors);
}

/// The bookmark file never grows past `CAP` lines.
pub proof fn bookmarks_capped(previous: Seq<char>, key: Seq<char>, page: nat)
    requires
        forall|i: int| 0 <= i < key.len() ==> #[trigger] key[i] != '\n',
    ensures
        lines(recorded(previous, key, page)).len() <= CAP,
{
    lemma_recorded_lines(previous, key, page);
}

proof fn lemma_find_in_kept(ls: Seq<Seq<char>>, key: Seq<char>, other: Seq<char>)
    requires
        other != key,
    ensures
        find_page(kept(ls, key), other) == find_page(ls, other),
    decreases ls.len(),
{
    if ls.len() > 0 {
        lemma_kept_cons(ls, key);
        lemma_find_in_kept(ls.drop_first(), key, other);
        let rest = kept(ls.drop_first(), key);
        if keeps(ls[0], key) {
            let k = seq![ls[0]] + rest;
            assert(k[0] == ls[0]);
            assert(k.drop_first() =~= rest);
        } else {
            assert(Seq::<Seq<char>>::empty() + rest =~= rest);
        }
    }
}

/// Recording one comic's page leaves every other comic's bookmark as it was,
/// while the file has room and was written by this program (no line ends in
/// a bare '\r').
pub proof fn bookmarks_of_others_survive(
    previous: Seq<char>,
    key: Seq<char>,
    page: nat,
    other: Seq<char>,
)
    requires
        forall|i: int| 0 <= i < key.len() ==> #[trigger] key[i] != '\n',
        key.len() > 0 ==> key.last() != '\r',
        other != key,
        lines(previous).len() < CAP,
        forall|k: int|
            0 <= k < lines(previous).len() ==> !(#[trigger] lines(previous)[k].len() > 0 && lines(
                previous,
            )[k].last() == '\r'),
    ensures
        find_page(lines(recorded(previous, key, page)), other) == find_page(lines(previous), other),
{
    lemma_recorded_lines(previous, key, page);
    let ls = lines(previous);
    let all = kept(ls, key);
    lemma_kept_shape(ls, key);
    assert(at_most(all, (CAP - 1) as nat) == all);
    assert forall|j: int| 0 <= j < all.len() implies #[trigger] crate::text::strip_cr(all[j]) == all[j] by {
        let i = choose|i: int| 0 <= i < ls.len() && all[j] == ls[i];
    }
    assert(all.map_values(|l: Seq<char>| crate::text::strip_cr(l)) =~= all);
    let d = decimal(page);
    crate::text::lemma_decimal_reads_back(page);
    let h = d + seq!['\t'] + key;
    if key.len() > 0 {
        assert(h.last() == key.last());
    }
    assert(crate::text::strip_cr(h) == h);
    crate::text::lemma_first_index_after(d, '\t', key);
    assert(h.skip(d.len() as int + 1) =~= key);
    let full = seq![h] + all;
    assert(full[0] == h);
    assert(full.drop_first() =~= all);
    lemma_find_in_kept(ls, key, other);
}

} // verus!
