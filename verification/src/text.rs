//! Character-level building blocks: collecting, appending and decimal text.

use vstd::prelude::*;

verus! {

/// Appends one character to a string (std's `String::push`).
#[verifier::external_body]
pub(crate) fn push_char(s: &mut String, c: char)
    ensures
        final(s)@ == old(s)@.push(c),
{
    s.push(c);
}

/// The characters of `s`, in order.
pub fn chars_of(s: &str) -> (v: Vec<char>)
    ensures
        v@ == s@,
{
    let mut v: Vec<char> = Vec::new();
    for c in it: s.chars()
        invariant
            v@ == it.seq().take(it.index() as int),
    {
        v.push(c);
    }
    v
}

} // verus!

verus! {

/// The character of a decimal digit.
pub open spec fn digit_char(d: int) -> char {
    (d + 48) as char
}

/// Decimal notation of `n`, without leading zeros.
pub open spec fn decimal(n: nat) -> Seq<char>
    decreases n,
{
    if n < 10 {
        seq![digit_char(n as int)]
    } else {
        decimal(n / 10).push(digit_char((n % 10) as int))
    }
}

fn digit(d: u8) -> (c: char)
    requires
        d < 10,
    ensures
        c == digit_char(d as int),
{
    (d + 48) as char
}

/// Appends the decimal notation of `n`.
pub fn push_decimal(out: &mut String, n: u128)
    ensures
        final(out)@ == old(out)@ + decimal(n as nat),
    decreases n,
{
    if n >= 10 {
        push_decimal(out, n / 10);
    }
    push_char(out, digit((n % 10) as u8));
    proof {
        assert(decimal(n as nat) == if n < 10 { seq![digit_char(n as int)] } else { decimal((n / 10) as nat).push(digit_char((n % 10) as int)) });
    }
}

} // verus!

verus! {

/// Whether the characters in `a` spell out exactly `b`.
pub fn same_chars(a: &[char], b: &str) -> (r: bool)
    ensures
        r == (a@ == b@),
{
    let bv = chars_of(b);
    if a.len() != bv.len() {
        return false;
    }
    let mut i: usize = 0;
    while i < a.len()
        invariant
            i <= a@.len(),
            a@.len() == bv@.len(),
            bv@ == b@,
            forall|k: int| 0 <= k < i ==> a@[k] == bv@[k],
        decreases a@.len() - i,
    {
        if a[i] != bv[i] {
            return false;
        }
        i = i + 1;
    }
    assert(a@ =~= bv@);
    true
}

/// Position of the last `c` in `s`, or -1.
pub open spec fn last_index(s: Seq<char>, c: char) -> int
    decreases s.len(),
{
    if s.len() == 0 {
        -1
    } else if s.last() == c {
        s.len() - 1
    } else {
        last_index(s.drop_last(), c)
    }
}

pub proof fn lemma_last_index(s: Seq<char>, c: char)
    ensures
        -1 <= last_index(s, c) < s.len(),
        last_index(s, c) >= 0 ==> s[last_index(s, c)] == c,
        forall|k: int| last_index(s, c) < k < s.len() ==> s[k] != c,
    decreases s.len(),
{
    if s.len() > 0 && s.last() != c {
        lemma_last_index(s.drop_last(), c);
        assert forall|k: int| last_index(s, c) < k < s.len() implies s[k] != c by {
            if k < s.len() - 1 {
                assert(s[k] == s.drop_last()[k]);
            }
        }
    }
}

/// Finds the last `c` in `s` (-1 in the spec when there is none).
pub fn find_last(s: &[char], c: char) -> (r: Option<usize>)
    ensures
        match r {
            Some(k) => k == last_index(s@, c) && k < s.len() && s@[k as int] == c,
            None => last_index(s@, c) == -1,
        },
{
    let mut k = s.len();
    proof {
        lemma_last_index(s@, c);
    }
    while k > 0
        invariant
            k <= s@.len(),
            forall|q: int| k <= q < s@.len() ==> s@[q] != c,
            -1 <= last_index(s@, c) < s@.len(),
            last_index(s@, c) >= 0 ==> s@[last_index(s@, c)] == c,
            forall|q: int| last_index(s@, c) < q < s@.len() ==> s@[q] != c,
        decreases k,
    {
        if s[k - 1] == c {
            return Some(k - 1);
        }
        k = k - 1;
    }
    None
}

/// ASCII upper-case letters folded to lower case; everything else unchanged.
pub open spec fn ascii_lower(c: char) -> char {
    if 65 <= c as u32 <= 90 {
        ((c as u32) + 32) as char
    } else {
        c
    }
}

pub open spec fn lower_ascii(s: Seq<char>) -> Seq<char> {
    s.map_values(|c: char| ascii_lower(c))
}

pub fn to_ascii_lower(c: char) -> (r: char)
    ensures
        r == ascii_lower(c),
{
    if c >= 'A' && c <= 'Z' {
        ((c as u8) + 32) as char
    } else {
        c
    }
}

/// The ASCII-lower-cased copy of `s[from..]`.
pub fn lower_ascii_from(s: &[char], from: usize) -> (r: Vec<char>)
    requires
        from <= s@.len(),
    ensures
        r@ == lower_ascii(s@.skip(from as int)),
{
    let mut out: Vec<char> = Vec::new();
    let mut i = from;
    while i < s.len()
        invariant
            from <= i <= s@.len(),
            out@ == lower_ascii(s@.subrange(from as int, i as int)),
        decreases s@.len() - i,
    {
        out.push(to_ascii_lower(s[i]));
        proof {
            assert(lower_ascii(s@.subrange(from as int, i + 1)) =~= lower_ascii(s@.subrange(from as int, i as int)).push(ascii_lower(s@[i as int])));
        }
        i = i + 1;
    }
    assert(s@.subrange(from as int, s@.len() as int) =~= s@.skip(from as int));
    out
}

} // verus!

verus! {

/// Whether `t` occurs in `s` as a contiguous run.
pub open spec fn contains_seq(s: Seq<char>, t: Seq<char>) -> bool {
    exists|i: int| 0 <= i && i + t.len() <= s.len() && #[trigger] s.subrange(i, i + t.len()) == t
}

fn matches_at(s: &[char], t: &[char], i: usize) -> (r: bool)
    requires
        i + t@.len() <= s.len(),
    ensures
        r == (s@.subrange(i as int, i + t@.len()) == t@),
{
    let mut k: usize = 0;
    while k < t.len()
        invariant
            k <= t@.len(),
            i + t@.len() <= s.len(),
            forall|q: int| 0 <= q < k ==> s@[i + q] == t@[q],
        decreases t@.len() - k,
    {
        if s[i + k] != t[k] {
            assert(s@.subrange(i as int, i + t@.len())[k as int] != t@[k as int]);
            return false;
        }
        k = k + 1;
    }
    assert(s@.subrange(i as int, i + t@.len()) =~= t@);
    true
}

pub fn contains_chars(s: &[char], t: &[char]) -> (r: bool)
    ensures
        r == contains_seq(s@, t@),
{
    if t.len() == 0 {
        assert(s@.subrange(0int, 0int + t@.len()) =~= t@);
        return true;
    }
    if t.len() > s.len() {
        return false;
    }
    let last = s.len() - t.len();
    let mut i: usize = 0;
    while i <= last
        invariant
            last + t@.len() == s.len(),
            t@.len() >= 1,
            i <= last + 1,
            forall|q: int| 0 <= q < i ==> #[trigger] s@.subrange(q, q + t@.len()) != t@,
        decreases last + 1 - i,
    {
        if matches_at(s, t, i) {
            return true;
        }
        i = i + 1;
    }
    false
}

} // verus!

verus! {

/// `n` in decimal, left-padded with zeros to at least `width` characters.
pub open spec fn zero_padded(n: nat, width: nat) -> Seq<char> {
    let d = decimal(n);
    if d.len() < width {
        Seq::new((width - d.len()) as nat, |_i: int| '0') + d
    } else {
        d
    }
}

/// Appends `n` in decimal, zero-padded to `width`.
pub fn push_zero_padded(out: &mut String, n: u128, width: usize)
    ensures
        final(out)@ == old(out)@ + zero_padded(n as nat, width as nat),
{
    let mut digits = String::new();
    push_decimal(&mut digits, n);
    let len = digits.as_str().unicode_len();
    let ghost start = out@;
    if len < width {
        let mut k: usize = 0;
        while k < width - len
            invariant
                k <= width - len,
                len < width,
                out@ == start + Seq::new(k as nat, |_i: int| '0'),
            decreases width - len - k,
        {
            push_char(out, '0');
            k = k + 1;
            assert(out@ =~= start + Seq::new(k as nat, |_i: int| '0'));
        }
    }
    out.append(digits.as_str());
    proof {
        if len < width {
            assert(out@ =~= start + (Seq::new((width - len) as nat, |_i: int| '0') + decimal(n as nat)));
        }
    }
}

} // verus!

verus! {

/// Texts joined with a separator between each two.
pub open spec fn joined(parts: Seq<Seq<char>>, sep: Seq<char>) -> Seq<char>
    decreases parts.len(),
{
    if parts.len() == 0 {
        seq![]
    } else if parts.len() == 1 {
        parts[0]
    } else {
        joined(parts.drop_last(), sep) + sep + parts.last()
    }
}

/// The views of a list of strings.
pub open spec fn views(v: Seq<String>) -> Seq<Seq<char>> {
    v.map_values(|s: String| s@)
}

/// Appends the strings of `parts` with `sep` between each two.
pub fn push_joined(out: &mut String, parts: &Vec<String>, sep: &str)
    ensures
        final(out)@ == old(out)@ + joined(views(parts@), sep@),
{
    let ghost start = out@;
    let mut i: usize = 0;
    while i < parts.len()
        invariant
            i <= parts@.len(),
            out@ == start + joined(views(parts@).take(i as int), sep@),
        decreases parts@.len() - i,
    {
        if i > 0 {
            out.append(sep);
        }
        out.append(parts[i].as_str());
        proof {
            let vs = views(parts@);
            assert(vs.take(i + 1).drop_last() =~= vs.take(i as int));
            assert(vs.take(i + 1).last() == parts@[i as int]@);
            if i == 0 {
                assert(vs.take(1) =~= seq![parts@[0]@]);
            }
        }
        i = i + 1;
    }
    assert(views(parts@).take(parts@.len() as int) =~= views(parts@));
}

} // verus!

verus! {

/// How many characters come before the first '\n' (all of them if none).
pub open spec fn line_len(s: Seq<char>) -> nat
    decreases s.len(),
{
    if s.len() == 0 || s[0] == '\n' {
        0
    } else {
        1 + line_len(s.drop_first())
    }
}

pub proof fn lemma_line_len(s: Seq<char>)
    ensures
        line_len(s) <= s.len(),
        forall|q: int| 0 <= q < line_len(s) ==> #[trigger] s[q] != '\n',
        line_len(s) < s.len() ==> s[line_len(s) as int] == '\n',
    decreases s.len(),
{
    if s.len() > 0 && s[0] != '\n' {
        lemma_line_len(s.drop_first());
        assert forall|q: int| 0 <= q < line_len(s) implies #[trigger] s[q] != '\n' by {
            if q > 0 {
                assert(s[q] == s.drop_first()[q - 1]);
            }
        }
    }
}

proof fn lemma_line_len_exact(s: Seq<char>, m: int)
    requires
        0 <= m <= s.len(),
        forall|q: int| 0 <= q < m ==> #[trigger] s[q] != '\n',
        m == s.len() || s[m] == '\n',
    ensures
        line_len(s) == m,
    decreases m,
{
    if m > 0 {
        let t = s.drop_first();
        assert forall|q: int| 0 <= q < m - 1 implies #[trigger] t[q] != '\n' by {
            assert(t[q] == s[q + 1]);
        }
        if m < s.len() {
            assert(t[m - 1] == s[m]);
        }
        lemma_line_len_exact(t, m - 1);
    }
}

/// A line without the '\r' of a "\r\n" ending.
pub open spec fn strip_cr(l: Seq<char>) -> Seq<char> {
    if l.len() > 0 && l.last() == '\r' {
        l.drop_last()
    } else {
        l
    }
}

/// The lines of a text, as `str::lines` gives them: split at '\n', a '\r'
/// right before a '\n' dropped, and no empty line after a final '\n'.
pub open spec fn lines(s: Seq<char>) -> Seq<Seq<char>>
    decreases s.len(),
{
    if s.len() == 0 {
        seq![]
    } else {
        let k = line_len(s);
        proof {
            lemma_line_len(s);
        }
        if k < s.len() {
            seq![strip_cr(s.take(k as int))] + lines(s.skip(k as int + 1))
        } else {
            seq![s]
        }
    }
}

/// The texts that ranges `[a, b)` pick out of `s`.
pub open spec fn texts(s: Seq<char>, ranges: Seq<(usize, usize)>) -> Seq<Seq<char>> {
    ranges.map_values(|r: (usize, usize)| s.subrange(r.0 as int, r.1 as int))
}

/// The lines of `s`, as ranges into it.
#[verifier::spinoff_prover]
pub fn split_lines(s: &Vec<char>) -> (r: Vec<(usize, usize)>)
    ensures
        texts(s@, r@) == lines(s@),
        forall|k: int| 0 <= k < r@.len() ==> #[trigger] r@[k].0 <= r@[k].1 <= s@.len(),
{
    let mut out: Vec<(usize, usize)> = Vec::new();
    let mut start: usize = 0;
    let mut i: usize = 0;
    assert(s@.skip(0) =~= s@);
    while i < s.len()
        invariant
            start <= i <= s@.len(),
            forall|q: int| start <= q < i ==> #[trigger] s@[q] != '\n',
            texts(s@, out@) + lines(s@.skip(start as int)) == lines(s@),
            forall|k: int| 0 <= k < out@.len() ==> #[trigger] out@[k].0 <= out@[k].1 <= s@.len(),
        decreases s@.len() - i,
    {
        if s[i] == '\n' {
            let end = if i > start && s[i - 1] == '\r' {
                i - 1
            } else {
                i
            };
            proof {
                let t = s@.skip(start as int);
                assert forall|q: int| 0 <= q < i - start implies #[trigger] t[q] != '\n' by {
                    assert(t[q] == s@[start + q]);
                }
                assert(t[i - start] == s@[i as int]);
                lemma_line_len_exact(t, i - start);
                assert(t.take(i - start) =~= s@.subrange(start as int, i as int));
                assert(t.skip(i - start + 1) =~= s@.skip(i + 1));
                assert(strip_cr(t.take(i - start)) =~= s@.subrange(start as int, end as int));
                assert(texts(s@, out@.push((start, end))) =~= texts(s@, out@).push(
                    s@.subrange(start as int, end as int),
                ));
                assert(lines(t) == seq![strip_cr(t.take(i - start))] + lines(t.skip(i - start + 1)));
            }
            assert(start <= end <= s@.len());
            let ghost before = out@;
            out.push((start, end));
            assert forall|k: int| 0 <= k < out@.len() implies #[trigger] out@[k].0 <= out@[k].1 <= s@.len() by {
                if k < before.len() {
                    assert(out@[k] == before[k]);
                }
            }
            start = i + 1;
        }
        i = i + 1;
    }
    if start < s.len() {
        proof {
            let t = s@.skip(start as int);
            assert forall|q: int| 0 <= q < t.len() implies #[trigger] t[q] != '\n' by {
                assert(t[q] == s@[start + q]);
            }
            lemma_line_len_exact(t, t.len() as int);
            assert(t =~= s@.subrange(start as int, s@.len() as int));
            assert(texts(s@, out@.push((start, s.len()))) =~= texts(s@, out@).push(t));
        }
        let ghost before = out@;
        out.push((start, s.len()));
        assert forall|k: int| 0 <= k < out@.len() implies #[trigger] out@[k].0 <= out@[k].1 <= s@.len() by {
            if k < before.len() {
                assert(out@[k] == before[k]);
            }
        }
    } else {
        assert(s@.skip(start as int) =~= Seq::<char>::empty());
    }
    proof {
        assert(texts(s@, out@) + lines(s@.skip(s@.len() as int)) =~= texts(s@, out@)) by {
            assert(s@.skip(s@.len() as int) =~= Seq::<char>::empty());
        }
    }
    out
}

} // verus!

verus! {

/// `char::is_whitespace`: the Unicode White_Space property.
pub open spec fn is_white(c: char) -> bool {
    let u = c as u32;
    ||| 9 <= u <= 13
    ||| u == 32
    ||| u == 0x85
    ||| u == 0xa0
    ||| u == 0x1680
    ||| 0x2000 <= u <= 0x200a
    ||| u == 0x2028
    ||| u == 0x2029
    ||| u == 0x202f
    ||| u == 0x205f
    ||| u == 0x3000
}

pub fn white(c: char) -> (r: bool)
    ensures
        r == is_white(c),
{
    let u = c as u32;
    (9 <= u && u <= 13) || u == 32 || u == 0x85 || u == 0xa0 || u == 0x1680 || (0x2000 <= u && u
        <= 0x200a) || u == 0x2028 || u == 0x2029 || u == 0x202f || u == 0x205f || u == 0x3000
}

pub open spec fn lead_white(s: Seq<char>) -> nat
    decreases s.len(),
{
    if s.len() > 0 && is_white(s[0]) {
        1 + lead_white(s.drop_first())
    } else {
        0
    }
}

pub open spec fn trail_white(s: Seq<char>) -> nat
    decreases s.len(),
{
    if s.len() > 0 && is_white(s.last()) {
        1 + trail_white(s.drop_last())
    } else {
        0
    }
}

/// `str::trim`: the text without leading and trailing whitespace.
pub open spec fn trim(s: Seq<char>) -> Seq<char> {
    let t = s.skip(lead_white(s) as int);
    t.take(t.len() - trail_white(t))
}

proof fn lemma_lead_white(s: Seq<char>, m: int)
    requires
        0 <= m <= s.len(),
        forall|q: int| 0 <= q < m ==> is_white(#[trigger] s[q]),
        m == s.len() || !is_white(s[m]),
    ensures
        lead_white(s) == m,
    decreases m,
{
    if m > 0 {
        let t = s.drop_first();
        assert forall|q: int| 0 <= q < m - 1 implies is_white(#[trigger] t[q]) by {
            assert(t[q] == s[q + 1]);
        }
        if m < s.len() {
            assert(t[m - 1] == s[m]);
        }
        lemma_lead_white(t, m - 1);
    }
}

proof fn lemma_trail_white(s: Seq<char>, m: int)
    requires
        0 <= m <= s.len(),
        forall|q: int| s.len() - m <= q < s.len() ==> is_white(#[trigger] s[q]),
        m == s.len() || !is_white(s[s.len() - m - 1]),
    ensures
        trail_white(s) == m,
    decreases m,
{
    if m > 0 {
        let t = s.drop_last();
        assert forall|q: int| t.len() - (m - 1) <= q < t.len() implies is_white(#[trigger] t[q]) by {
            assert(t[q] == s[q]);
        }
        if m < s.len() {
            assert(t[t.len() - (m - 1) - 1] == s[s.len() - m - 1]);
        }
        lemma_trail_white(t, m - 1);
    }
}

/// The bounds of `s[a..b]` with surrounding whitespace trimmed.
pub fn trim_range(s: &Vec<char>, a: usize, b: usize) -> (r: (usize, usize))
    requires
        a <= b <= s@.len(),
    ensures
        a <= r.0 <= r.1 <= b,
        s@.subrange(r.0 as int, r.1 as int) == trim(s@.subrange(a as int, b as int)),
{
    let ghost whole = s@.subrange(a as int, b as int);
    let mut i = a;
    while i < b && white(s[i])
        invariant
            a <= i <= b,
            b <= s@.len(),
            forall|q: int| a <= q < i ==> is_white(#[trigger] s@[q]),
        decreases b - i,
    {
        i = i + 1;
    }
    proof {
        assert forall|q: int| 0 <= q < i - a implies is_white(#[trigger] whole[q]) by {
            assert(whole[q] == s@[a + q]);
        }
        if i < b {
            assert(whole[i - a] == s@[i as int]);
        }
        lemma_lead_white(whole, i - a);
    }
    let mut j = b;
    while j > i && white(s[j - 1])
        invariant
            a <= i <= j <= b,
            b <= s@.len(),
            forall|q: int| j <= q < b ==> is_white(#[trigger] s@[q]),
        decreases j - i,
    {
        j = j - 1;
    }
    proof {
        let t = whole.skip(i - a);
        assert(t =~= s@.subrange(i as int, b as int));
        assert forall|q: int| t.len() - (b - j) <= q < t.len() implies is_white(#[trigger] t[q]) by {
            assert(t[q] == s@[i + q]);
        }
        if j > i {
            assert(t[t.len() - (b - j) - 1] == s@[j - 1]);
        }
        lemma_trail_white(t, b - j);
        assert(t.take(t.len() - (b - j)) =~= s@.subrange(i as int, j as int));
    }
    (i, j)
}

/// Position of the first `c` in `s`, or -1.
pub open spec fn first_index(s: Seq<char>, c: char) -> int
    decreases s.len(),
{
    if s.len() == 0 {
        -1
    } else if s[0] == c {
        0
    } else if first_index(s.drop_first(), c) < 0 {
        -1
    } else {
        1 + first_index(s.drop_first(), c)
    }
}

proof fn lemma_first_index(s: Seq<char>, c: char, m: int)
    requires
        0 <= m <= s.len(),
        forall|q: int| 0 <= q < m ==> #[trigger] s[q] != c,
        m == s.len() || s[m] == c,
    ensures
        first_index(s, c) == if m == s.len() {
            -1
        } else {
            m
        },
    decreases m,
{
    if m > 0 {
        let t = s.drop_first();
        assert forall|q: int| 0 <= q < m - 1 implies #[trigger] t[q] != c by {
            assert(t[q] == s[q + 1]);
        }
        if m < s.len() {
            assert(t[m - 1] == s[m]);
        }
        lemma_first_index(t, c, m - 1);
    }
}

/// Where the first `c` in `s[a..b]` is, as an index into `s`.
pub fn find_first_in(s: &Vec<char>, a: usize, b: usize, c: char) -> (r: Option<usize>)
    requires
        a <= b <= s@.len(),
    ensures
        match r {
            Some(k) => a <= k < b && k - a == first_index(s@.subrange(a as int, b as int), c),
            None => first_index(s@.subrange(a as int, b as int), c) == -1,
        },
{
    let ghost t = s@.subrange(a as int, b as int);
    let mut i = a;
    while i < b
        invariant
            a <= i <= b,
            b <= s@.len(),
            t == s@.subrange(a as int, b as int),
            forall|q: int| a <= q < i ==> #[trigger] s@[q] != c,
        decreases b - i,
    {
        if s[i] == c {
            proof {
                assert forall|q: int| 0 <= q < i - a implies #[trigger] t[q] != c by {
                    assert(t[q] == s@[a + q]);
                }
                assert(t[i - a] == s@[i as int]);
                lemma_first_index(t, c, i - a);
            }
            return Some(i);
        }
        i = i + 1;
    }
    proof {
        assert forall|q: int| 0 <= q < t.len() implies #[trigger] t[q] != c by {
            assert(t[q] == s@[a + q]);
        }
        lemma_first_index(t, c, t.len() as int);
    }
    None
}

/// `str::split_once`: the text before and after the first `c`.
pub open spec fn split_once(s: Seq<char>, c: char) -> Option<(Seq<char>, Seq<char>)> {
    let k = first_index(s, c);
    if k < 0 {
        None
    } else {
        Some((s.take(k), s.skip(k + 1)))
    }
}

} // verus!

verus! {

/// An ASCII decimal digit.
pub open spec fn is_digit_char(c: char) -> bool {
    48 <= c as u32 <= 57
}

pub open spec fn all_digits(s: Seq<char>) -> bool {
    forall|i: int| 0 <= i < s.len() ==> is_digit_char(#[trigger] s[i])
}

/// The number a run of decimal digits spells.
pub open spec fn decimal_value(s: Seq<char>) -> nat
    decreases s.len(),
{
    if s.len() == 0 {
        0
    } else {
        decimal_value(s.drop_last()) * 10 + ((s.last() as u32) - 48) as nat
    }
}

proof fn lemma_decimal_value_grows(s: Seq<char>, k: int)
    requires
        0 <= k <= s.len(),
        all_digits(s),
    ensures
        decimal_value(s.take(k)) <= decimal_value(s),
    decreases s.len(),
{
    if k < s.len() {
        assert(s.drop_last().take(k) =~= s.take(k));
        lemma_decimal_value_grows(s.drop_last(), k);
    } else {
        assert(s.take(k) =~= s);
    }
}

/// A run of digits whose value is at most `limit`, read; anything else is `None`.
pub open spec fn bounded_digits(s: Seq<char>, limit: nat) -> Option<nat> {
    if s.len() > 0 && all_digits(s) && decimal_value(s) <= limit {
        Some(decimal_value(s))
    } else {
        None
    }
}

/// Reads `s[a..b]` as a run of digits no larger than `limit`.
pub fn read_digits(s: &Vec<char>, a: usize, b: usize, limit: u64) -> (r: Option<u64>)
    requires
        a <= b <= s@.len(),
    ensures
        match bounded_digits(s@.subrange(a as int, b as int), limit as nat) {
            Some(v) => r == Some(v as u64),
            None => r is None,
        },
{
    let ghost t = s@.subrange(a as int, b as int);
    if a == b {
        return None;
    }
    let mut n: u64 = 0;
    let mut i = a;
    assert(t.take(0) =~= Seq::<char>::empty());
    while i < b
        invariant
            a <= i <= b,
            b <= s@.len(),
            t == s@.subrange(a as int, b as int),
            all_digits(t.take(i - a)),
            n == decimal_value(t.take(i - a)),
            n <= limit,
        decreases b - i,
    {
        let c = s[i];
        assert(t[i - a] == c);
        let u = c as u32;
        if !(u >= 48 && u <= 57) {
            assert(!is_digit_char(t[i - a]));
            return None;
        }
        let d = (u - 48) as u64;
        proof {
            assert(t.take(i - a + 1).drop_last() =~= t.take(i - a));
            assert(all_digits(t.take(i - a + 1)));
        }
        let m = match n.checked_mul(10) {
            Some(m) => m,
            None => {
                proof {
                    if all_digits(t) {
                        lemma_decimal_value_grows(t, i - a + 1);
                    }
                }
                return None;
            },
        };
        let v = match m.checked_add(d) {
            Some(v) => v,
            None => {
                proof {
                    if all_digits(t) {
                        lemma_decimal_value_grows(t, i - a + 1);
                    }
                }
                return None;
            },
        };
        if v > limit {
            proof {
                if all_digits(t) {
                    lemma_decimal_value_grows(t, i - a + 1);
                }
            }
            return None;
        }
        n = v;
        i = i + 1;
    }
    assert(t.take(b - a) =~= t);
    Some(n)
}

/// `usize::from_str`: an optional '+', then digits, no larger than `usize::MAX`.
pub open spec fn parse_usize(s: Seq<char>) -> Option<usize> {
    let d = if s.len() > 0 && s[0] == '+' {
        s.drop_first()
    } else {
        s
    };
    match bounded_digits(d, usize::MAX as nat) {
        Some(v) => Some(v as usize),
        None => None,
    }
}

/// `i32::from_str`: an optional sign, then digits, within `i32`'s range.
pub open spec fn parse_i32(s: Seq<char>) -> Option<i32> {
    if s.len() > 0 && s[0] == '-' {
        match bounded_digits(s.drop_first(), 0x8000_0000) {
            Some(v) => Some((0 - v) as i32),
            None => None,
        }
    } else {
        let d = if s.len() > 0 && s[0] == '+' {
            s.drop_first()
        } else {
            s
        };
        match bounded_digits(d, 0x7fff_ffff) {
            Some(v) => Some(v as i32),
            None => None,
        }
    }
}

/// Reads `s[a..b]` as `usize::from_str` would.
pub fn read_usize(s: &Vec<char>, a: usize, b: usize) -> (r: Option<usize>)
    requires
        a <= b <= s@.len(),
    ensures
        r == parse_usize(s@.subrange(a as int, b as int)),
{
    let ghost t = s@.subrange(a as int, b as int);
    let start = if a < b && s[a] == '+' {
        assert(t[0] == s@[a as int]);
        assert(t.drop_first() =~= s@.subrange(a + 1, b as int));
        a + 1
    } else {
        a
    };
    match read_digits(s, start, b, usize::MAX as u64) {
        Some(v) => Some(v as usize),
        None => None,
    }
}

/// Reads `s[a..b]` as `i32::from_str` would.
pub fn read_i32(s: &Vec<char>, a: usize, b: usize) -> (r: Option<i32>)
    requires
        a <= b <= s@.len(),
    ensures
        r == parse_i32(s@.subrange(a as int, b as int)),
{
    let ghost t = s@.subrange(a as int, b as int);
    if a < b && s[a] == '-' {
        assert(t[0] == s@[a as int]);
        assert(t.drop_first() =~= s@.subrange(a + 1, b as int));
        match read_digits(s, a + 1, b, 0x8000_0000) {
            Some(v) => Some((0 - (v as i64)) as i32),
            None => None,
        }
    } else {
        let start = if a < b && s[a] == '+' {
            assert(t[0] == s@[a as int]);
            assert(t.drop_first() =~= s@.subrange(a + 1, b as int));
            a + 1
        } else {
            a
        };
        match read_digits(s, start, b, 0x7fff_ffff) {
            Some(v) => Some(v as i32),
            None => None,
        }
    }
}

} // verus!

verus! {

/// Whether `s[a..b]` spells out exactly `t`.
pub fn same_range(s: &Vec<char>, a: usize, b: usize, t: &Vec<char>) -> (r: bool)
    requires
        a <= b <= s@.len(),
    ensures
        r == (s@.subrange(a as int, b as int) == t@),
{
    if b - a != t.len() {
        return false;
    }
    let mut i: usize = 0;
    while i < t.len()
        invariant
            i <= t@.len(),
            a + t@.len() == b,
            b <= s@.len(),
            forall|q: int| 0 <= q < i ==> s@[a + q] == t@[q],
        decreases t@.len() - i,
    {
        if s[a + i] != t[i] {
            assert(s@.subrange(a as int, b as int)[i as int] != t@[i as int]);
            return false;
        }
        i = i + 1;
    }
    assert(s@.subrange(a as int, b as int) =~= t@);
    true
}

/// Appends `s[a..b]`.
pub fn push_range(out: &mut String, s: &Vec<char>, a: usize, b: usize)
    requires
        a <= b <= s@.len(),
    ensures
        final(out)@ == old(out)@ + s@.subrange(a as int, b as int),
{
    let ghost start = out@;
    let mut i = a;
    while i < b
        invariant
            a <= i <= b,
            b <= s@.len(),
            out@ == start + s@.subrange(a as int, i as int),
        decreases b - i,
    {
        push_char(out, s[i]);
        assert(s@.subrange(a as int, i + 1) =~= s@.subrange(a as int, i as int).push(s@[i as int]));
        i = i + 1;
    }
}

} // verus!

verus! {

/// Decimal notation reads back as the number it was written from.
pub proof fn lemma_decimal_reads_back(n: nat)
    ensures
        decimal(n).len() >= 1,
        all_digits(decimal(n)),
        decimal_value(decimal(n)) == n,
        forall|i: int| 0 <= i < decimal(n).len() ==> #[trigger] decimal(n)[i] != '\n' && decimal(n)[i]
            != '\t' && decimal(n)[i] != '+' && decimal(n)[i] != '\r' && decimal(n)[i] != '-',
    decreases n,
{
    if n >= 10 {
        lemma_decimal_reads_back(n / 10);
        let d = decimal(n);
        assert(d.drop_last() =~= decimal(n / 10));
        assert(d.last() == digit_char((n % 10) as int));
        assert((digit_char((n % 10) as int) as u32) - 48 == n % 10);
        assert((n / 10) * 10 + n % 10 == n);
        assert forall|i: int| 0 <= i < d.len() implies is_digit_char(#[trigger] d[i]) by {
            if i < d.len() - 1 {
                assert(d[i] == decimal(n / 10)[i]);
            }
        }
        assert(decimal_value(d) == decimal_value(d.drop_last()) * 10 + ((d.last() as u32) - 48) as nat);
        assert(decimal_value(d.drop_last()) == n / 10);
        assert(((d.last() as u32) - 48) as nat == n % 10);
        assert(decimal_value(d) == (n / 10) * 10 + n % 10);
    } else {
        let d = decimal(n);
        assert(d.drop_last() =~= Seq::<char>::empty());
        assert((digit_char(n as int) as u32) - 48 == n);
        assert(decimal_value(d.drop_last()) == 0);
        assert(d.last() == digit_char(n as int));
        assert(decimal_value(d) == n);
    }
}

/// Parsing the decimal notation of a `usize` gives it back.
pub proof fn lemma_parse_decimal(n: usize)
    ensures
        parse_usize(decimal(n as nat)) == Some(n),
{
    lemma_decimal_reads_back(n as nat);
}

/// Splitting a text whose first line is `h` (no '\n' in it).
pub proof fn lemma_lines_cons(h: Seq<char>, rest: Seq<char>)
    requires
        forall|i: int| 0 <= i < h.len() ==> #[trigger] h[i] != '\n',
    ensures
        lines(h + seq!['\n'] + rest) == seq![strip_cr(h)] + lines(rest),
{
    let s = h + seq!['\n'] + rest;
    assert forall|q: int| 0 <= q < h.len() implies #[trigger] s[q] != '\n' by {
        assert(s[q] == h[q]);
    }
    assert(s[h.len() as int] == '\n');
    lemma_line_len_exact(s, h.len() as int);
    assert(s.take(h.len() as int) =~= h);
    assert(s.skip(h.len() as int + 1) =~= rest);
}

/// Where the first `c` is in a text that begins with `c`-free `a` and then `c`.
pub proof fn lemma_first_index_after(a: Seq<char>, c: char, rest: Seq<char>)
    requires
        forall|i: int| 0 <= i < a.len() ==> #[trigger] a[i] != c,
    ensures
        first_index(a + seq![c] + rest, c) == a.len(),
{
    let s = a + seq![c] + rest;
    assert forall|q: int| 0 <= q < a.len() implies #[trigger] s[q] != c by {
        assert(s[q] == a[q]);
    }
    lemma_first_index(s, c, a.len() as int);
}

} // verus!

verus! {

/// Lines written out, each followed by '\n'.
pub open spec fn line_block(ls: Seq<Seq<char>>) -> Seq<char>
    decreases ls.len(),
{
    if ls.len() == 0 {
        seq![]
    } else {
        line_block(ls.drop_last()) + ls.last() + seq!['\n']
    }
}

pub proof fn lemma_block_cons(ls: Seq<Seq<char>>)
    requires
        ls.len() > 0,
    ensures
        line_block(ls) == ls[0] + seq!['\n'] + line_block(ls.drop_first()),
    decreases ls.len(),
{
    if ls.len() == 1 {
        assert(ls.drop_last() =~= Seq::<Seq<char>>::empty());
        assert(ls.drop_first() =~= Seq::<Seq<char>>::empty());
        assert(line_block(ls) =~= ls[0] + seq!['\n'] + line_block(ls.drop_first()));
    } else {
        lemma_block_cons(ls.drop_last());
        assert(ls.drop_last().drop_first() =~= ls.drop_first().drop_last());
        assert(ls.drop_first().last() == ls.last());
        assert(line_block(ls) =~= ls[0] + seq!['\n'] + line_block(ls.drop_first()));
    }
}

pub proof fn lemma_lines_of_block(ls: Seq<Seq<char>>)
    requires
        forall|k: int, i: int| 0 <= k < ls.len() && 0 <= i < ls[k].len() ==> #[trigger] ls[k][i] != '\n',
    ensures
        lines(line_block(ls)) == ls.map_values(|l: Seq<char>| strip_cr(l)),
    decreases ls.len(),
{
    if ls.len() == 0 {
        assert(line_block(ls) =~= Seq::<char>::empty());
        assert(ls.map_values(|l: Seq<char>| strip_cr(l)) =~= Seq::<Seq<char>>::empty());
    } else {
        lemma_block_cons(ls);
        let rest = ls.drop_first();
        assert forall|k: int, i: int| 0 <= k < rest.len() && 0 <= i < rest[k].len() implies #[trigger] rest[k][i]
            != '\n' by {
            assert(rest[k] == ls[k + 1]);
        }
        lemma_lines_of_block(rest);
        assert forall|i: int| 0 <= i < ls[0].len() implies #[trigger] ls[0][i] != '\n' by {}
        lemma_lines_cons(ls[0], line_block(rest));
        assert(ls.map_values(|l: Seq<char>| strip_cr(l)) =~= seq![strip_cr(ls[0])]
            + rest.map_values(|l: Seq<char>| strip_cr(l)));
    }
}

} // verus!

verus! {

/// How an `i32` is written in decimal.
pub open spec fn signed_decimal(v: i32) -> Seq<char> {
    if v < 0 {
        seq!['-'] + decimal((0 - v) as nat)
    } else {
        decimal(v as nat)
    }
}

/// Appends `v` in decimal, with a '-' when negative.
pub fn push_signed(out: &mut String, v: i32)
    ensures
        final(out)@ == old(out)@ + signed_decimal(v),
{
    let ghost start = out@;
    if v < 0 {
        push_char(out, '-');
        let m: i64 = 0 - (v as i64);
        push_decimal(out, m as u128);
        assert(out@ =~= start + (seq!['-'] + decimal((0 - v) as nat)));
    } else {
        push_decimal(out, v as u128);
    }
}

} // verus!
