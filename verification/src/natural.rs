//! Natural ordering of names: runs of digits compare by value, everything
//! else byte by byte, so "page9" comes before "page10".

use core::cmp::Ordering;
use vstd::prelude::*;
use vstd::string::StringSliceAdditionalSpecFns;

verus! {

/// An ASCII digit byte.
pub open spec fn is_digit(b: u8) -> bool {
    48 <= b <= 57
}

/// The value of a run of decimal digits.
pub open spec fn digits_value(s: Seq<u8>) -> nat
    decreases s.len(),
{
    if s.len() == 0 {
        0
    } else {
        digits_value(s.drop_last()) * 10 + (s.last() - 48) as nat
    }
}

/// How many digits `s` starts with.
pub open spec fn digit_run(s: Seq<u8>) -> nat
    decreases s.len(),
{
    if s.len() > 0 && is_digit(s[0]) {
        1 + digit_run(s.drop_first())
    } else {
        0
    }
}

/// A number that no `u128` can hold counts as `u128::MAX`.
pub open spec fn saturated(n: nat) -> u128 {
    if n > u128::MAX {
        u128::MAX
    } else {
        n as u128
    }
}

/// A name read as a sequence of tokens, each compared as a pair: a run of
/// digits is `(48, value)` (it sits among the bytes where its digits do), any
/// other byte `b` is `(b, 0)`.
pub open spec fn tokens(s: Seq<u8>) -> Seq<(int, int)>
    decreases s.len(),
{
    if s.len() == 0 {
        seq![]
    } else if is_digit(s[0]) {
        let k = digit_run(s);
        proof {
            lemma_digit_run_bounds(s);
        }
        seq![(48int, saturated(digits_value(s.take(k as int))) as int)] + tokens(s.skip(k as int))
    } else {
        seq![(s[0] as int, 0int)] + tokens(s.skip(1))
    }
}

pub proof fn lemma_digit_run_bounds(s: Seq<u8>)
    ensures
        digit_run(s) <= s.len(),
        s.len() > 0 && is_digit(s[0]) ==> digit_run(s) >= 1,
        forall|i: int| 0 <= i < digit_run(s) ==> is_digit(#[trigger] s[i]),
        digit_run(s) < s.len() ==> !is_digit(s[digit_run(s) as int]),
    decreases s.len(),
{
    if s.len() > 0 && is_digit(s[0]) {
        lemma_digit_run_bounds(s.drop_first());
        assert forall|i: int| 0 <= i < digit_run(s) implies is_digit(#[trigger] s[i]) by {
            if i > 0 {
                assert(s[i] == s.drop_first()[i - 1]);
            }
        }
    }
}

/// Order of two tokens.
pub open spec fn token_order(x: (int, int), y: (int, int)) -> Ordering {
    if x.0 < y.0 || (x.0 == y.0 && x.1 < y.1) {
        Ordering::Less
    } else if x == y {
        Ordering::Equal
    } else {
        Ordering::Greater
    }
}

/// Lexicographic order of token sequences; a proper prefix comes first.
pub open spec fn lexicographic(x: Seq<(int, int)>, y: Seq<(int, int)>) -> Ordering
    decreases x.len(),
{
    if x.len() == 0 && y.len() == 0 {
        Ordering::Equal
    } else if x.len() == 0 {
        Ordering::Less
    } else if y.len() == 0 {
        Ordering::Greater
    } else if x[0] != y[0] {
        token_order(x[0], y[0])
    } else {
        lexicographic(x.drop_first(), y.drop_first())
    }
}

/// The natural order of two names given as bytes.
pub open spec fn natural_order(a: Seq<u8>, b: Seq<u8>) -> Ordering {
    lexicographic(tokens(a), tokens(b))
}

/// The opposite outcome.
pub open spec fn flipped(o: Ordering) -> Ordering {
    match o {
        Ordering::Less => Ordering::Greater,
        Ordering::Equal => Ordering::Equal,
        Ordering::Greater => Ordering::Less,
    }
}

} // verus!

verus! {

proof fn lemma_digit_run_exact(t: Seq<u8>, m: int)
    requires
        0 <= m <= t.len(),
        forall|q: int| 0 <= q < m ==> is_digit(#[trigger] t[q]),
        m == t.len() || !is_digit(t[m]),
    ensures
        digit_run(t) == m,
    decreases m,
{
    if m > 0 {
        let u = t.drop_first();
        assert forall|q: int| 0 <= q < m - 1 implies is_digit(#[trigger] u[q]) by {
            assert(u[q] == t[q + 1]);
        }
        if m < t.len() {
            assert(u[m - 1] == t[m]);
        }
        lemma_digit_run_exact(u, m - 1);
    }
}

fn is_ascii_digit(b: u8) -> (r: bool)
    ensures
        r == is_digit(b),
{
    48 <= b && b <= 57
}

/// Reads the run of digits starting at `i`, saturating rather than
/// overflowing on absurdly long runs. Returns the value and where the run ends.
fn take_number(s: &[u8], i: usize) -> (r: (u128, usize))
    requires
        i <= s@.len(),
    ensures
        r.1 == i + digit_run(s@.skip(i as int)),
        r.0 == saturated(digits_value(s@.subrange(i as int, r.1 as int))),
{
    let mut i = i;
    let ghost start = i as int;
    let mut n: u128 = 0;
    assert(s@.subrange(start, start) =~= Seq::<u8>::empty());
    while i < s.len() && is_ascii_digit(s[i])
        invariant
            0 <= start <= i <= s@.len(),
            forall|q: int| start <= q < i ==> is_digit(#[trigger] s@[q]),
            n == saturated(digits_value(s@.subrange(start, i as int))),
        decreases s@.len() - i,
    {
        let d: u8 = s[i] - 48;
        let ghost v = digits_value(s@.subrange(start, i as int));
        assert(s@.subrange(start, i + 1).drop_last() =~= s@.subrange(start, i as int));
        assert(digits_value(s@.subrange(start, i + 1)) == v * 10 + d);
        let m: u128 = match n.checked_mul(10) {
            Some(m) => m,
            None => u128::MAX,
        };
        n = m.saturating_add(d as u128);
        i = i + 1;
    }
    proof {
        let t = s@.skip(start);
        assert forall|q: int| 0 <= q < i - start implies is_digit(#[trigger] t[q]) by {
            assert(t[q] == s@[q + start]);
        }
        if i < s@.len() {
            assert(t[i - start] == s@[i as int]);
        }
        lemma_digit_run_exact(t, i - start);
    }
    (n, i)
}

} // verus!

verus! {

/// The tokens of what follows position `i`.
pub open spec fn suffix_tokens(s: Seq<u8>, i: usize) -> Seq<(int, int)> {
    tokens(s.skip(i as int))
}

proof fn lemma_tokens_at(s: Seq<u8>, i: usize)
    requires
        i <= s.len(),
    ensures
        i == s.len() ==> suffix_tokens(s, i) == Seq::<(int, int)>::empty(),
        i < s.len() && is_digit(s[i as int]) ==> ({
            let k = digit_run(s.skip(i as int));
            &&& 1 <= k <= s.len() - i
            &&& suffix_tokens(s, i) == seq![(48int, saturated(digits_value(s.subrange(i as int, i + k))) as int)]
                + tokens(s.skip(i + k))
        }),
        i < s.len() && !is_digit(s[i as int]) ==> suffix_tokens(s, i) == seq![(s[i as int] as int, 0int)] + tokens(
            s.skip(i + 1),
        ),
{
    let i = i as int;
    let t = s.skip(i);
    if i < s.len() {
        assert(t[0] == s[i]);
        lemma_digit_run_bounds(t);
        let k = digit_run(t) as int;
        if is_digit(s[i]) {
            assert(t.skip(k) =~= s.skip(i + k));
            assert(t.take(k) =~= s.subrange(i, i + k));
        } else {
            assert(t.skip(1) =~= s.skip(i + 1));
        }
    } else {
        assert(t =~= Seq::<u8>::empty());
    }
}

/// Orders names the way a person would: page9 before page10, and "1-2" after
/// "1-1". Compares bytes, so callers fold case themselves if they want it.
pub fn natural_cmp(a: &str, b: &str) -> (r: Ordering)
    ensures
        r == natural_order(a.spec_bytes(), b.spec_bytes()),
{
    let x = a.as_bytes();
    let y = b.as_bytes();
    let mut i: usize = 0;
    let mut j: usize = 0;
    assert(x@.skip(0) =~= x@);
    assert(y@.skip(0) =~= y@);
    while i < x.len() && j < y.len()
        invariant
            i <= x@.len(),
            x@ == a.spec_bytes(),
            y@ == b.spec_bytes(),
            j <= y@.len(),
            natural_order(x@, y@) == lexicographic(suffix_tokens(x@, i), suffix_tokens(y@, j)),
        decreases x@.len() - i + y@.len() - j,
    {
        proof {
            lemma_tokens_at(x@, i);
            lemma_tokens_at(y@, j);
        }
        if is_ascii_digit(x[i]) && is_ascii_digit(y[j]) {
            let (left, ni) = take_number(x, i);
            let (right, nj) = take_number(y, j);
            if left != right {
                if left < right {
                    return Ordering::Less;
                } else {
                    return Ordering::Greater;
                }
            }
            proof {
                let tx = suffix_tokens(x@, i);
                let ty = suffix_tokens(y@, j);
                assert(tx[0] == ty[0]);
                assert(tx.drop_first() =~= suffix_tokens(x@, ni));
                assert(ty.drop_first() =~= suffix_tokens(y@, nj));
            }
            i = ni;
            j = nj;
        } else {
            if x[i] != y[j] {
                if x[i] < y[j] {
                    return Ordering::Less;
                } else {
                    return Ordering::Greater;
                }
            }
            proof {
                let tx = suffix_tokens(x@, i);
                let ty = suffix_tokens(y@, j);
                assert(tx.drop_first() =~= tokens(x@.skip(i + 1)));
                assert(ty.drop_first() =~= tokens(y@.skip(j + 1)));
            }
            i = i + 1;
            j = j + 1;
        }
    }
    proof {
        lemma_tokens_at(x@, i);
        lemma_tokens_at(y@, j);
    }
    let rest_a = x.len() - i;
    let rest_b = y.len() - j;
    if rest_a < rest_b {
        Ordering::Less
    } else if rest_a == rest_b {
        Ordering::Equal
    } else {
        Ordering::Greater
    }
}

} // verus!

verus! {

proof fn lemma_lexicographic_reflexive(x: Seq<(int, int)>)
    ensures
        lexicographic(x, x) == Ordering::Equal,
    decreases x.len(),
{
    if x.len() > 0 {
        lemma_lexicographic_reflexive(x.drop_first());
    }
}

proof fn lemma_lexicographic_equal(x: Seq<(int, int)>, y: Seq<(int, int)>)
    ensures
        lexicographic(x, y) == Ordering::Equal <==> x == y,
    decreases x.len(),
{
    lemma_lexicographic_reflexive(x);
    if x.len() == 0 && y.len() == 0 {
        assert(x =~= y);
    }
    if x.len() > 0 && y.len() > 0 && x[0] == y[0] {
        lemma_lexicographic_equal(x.drop_first(), y.drop_first());
        if x.drop_first() == y.drop_first() {
            assert forall|i: int| 0 <= i < x.len() implies x[i] == y[i] by {
                if i > 0 {
                    assert(x[i] == x.drop_first()[i - 1]);
                    assert(y[i] == y.drop_first()[i - 1]);
                }
            }
            assert(x =~= y);
        }
    }
}

proof fn lemma_lexicographic_flip(x: Seq<(int, int)>, y: Seq<(int, int)>)
    ensures
        lexicographic(x, y) == flipped(lexicographic(y, x)),
    decreases x.len(),
{
    if x.len() > 0 && y.len() > 0 && x[0] == y[0] {
        lemma_lexicographic_flip(x.drop_first(), y.drop_first());
    }
}

proof fn lemma_lexicographic_less_trans(x: Seq<(int, int)>, y: Seq<(int, int)>, z: Seq<(int, int)>)
    requires
        lexicographic(x, y) == Ordering::Less,
        lexicographic(y, z) == Ordering::Less,
    ensures
        lexicographic(x, z) == Ordering::Less,
    decreases x.len(),
{
    if x.len() > 0 && y.len() > 0 && z.len() > 0 && x[0] == y[0] && y[0] == z[0] {
        lemma_lexicographic_less_trans(x.drop_first(), y.drop_first(), z.drop_first());
    }
}

/// A name is in the same place as itself.
pub proof fn natural_order_reflexive(a: Seq<u8>)
    ensures
        natural_order(a, a) == Ordering::Equal,
{
    lemma_lexicographic_reflexive(tokens(a));
}

/// Swapping the two names swaps the answer.
pub proof fn natural_order_antisymmetric(a: Seq<u8>, b: Seq<u8>)
    ensures
        natural_order(a, b) == flipped(natural_order(b, a)),
{
    lemma_lexicographic_flip(tokens(a), tokens(b));
}

/// Two names rank equal exactly when they read as the same tokens (so "p02"
/// and "p2" rank equal), and names that rank equal sort alike against any third.
pub proof fn natural_order_equal(a: Seq<u8>, b: Seq<u8>, c: Seq<u8>)
    ensures
        natural_order(a, b) == Ordering::Equal <==> tokens(a) == tokens(b),
        natural_order(a, b) == Ordering::Equal ==> natural_order(a, c) == natural_order(b, c),
{
    lemma_lexicographic_equal(tokens(a), tokens(b));
}

/// The order is transitive: it is a total preorder on names.
pub proof fn natural_order_transitive(a: Seq<u8>, b: Seq<u8>, c: Seq<u8>)
    ensures
        natural_order(a, b) == Ordering::Less && natural_order(b, c) == Ordering::Less
            ==> natural_order(a, c) == Ordering::Less,
        natural_order(a, b) != Ordering::Greater && natural_order(b, c) != Ordering::Greater
            ==> natural_order(a, c) != Ordering::Greater,
{
    lemma_lexicographic_equal(tokens(a), tokens(b));
    lemma_lexicographic_equal(tokens(b), tokens(c));
    if natural_order(a, b) == Ordering::Less && natural_order(b, c) == Ordering::Less {
        lemma_lexicographic_less_trans(tokens(a), tokens(b), tokens(c));
    }
}

} // verus!

verus! {

/// Every byte is an ASCII digit.
pub open spec fn all_digits(s: Seq<u8>) -> bool {
    forall|i: int| 0 <= i < s.len() ==> is_digit(#[trigger] s[i])
}

/// No byte is an ASCII digit.
pub open spec fn digit_free(s: Seq<u8>) -> bool {
    forall|i: int| 0 <= i < s.len() ==> !is_digit(#[trigger] s[i])
}

/// How two numbers compare.
pub open spec fn number_order(v: nat, w: nat) -> Ordering {
    if v < w {
        Ordering::Less
    } else if v == w {
        Ordering::Equal
    } else {
        Ordering::Greater
    }
}

/// Plain byte order: the first differing byte decides, and a proper prefix
/// comes first.
pub open spec fn byte_order(a: Seq<u8>, b: Seq<u8>) -> Ordering
    decreases a.len(),
{
    if a.len() == 0 && b.len() == 0 {
        Ordering::Equal
    } else if a.len() == 0 {
        Ordering::Less
    } else if b.len() == 0 {
        Ordering::Greater
    } else if a[0] != b[0] {
        if a[0] < b[0] {
            Ordering::Less
        } else {
            Ordering::Greater
        }
    } else {
        byte_order(a.drop_first(), b.drop_first())
    }
}

/// A name that ends in something other than a digit splits its tokens there.
proof fn lemma_tokens_concat(p: Seq<u8>, x: Seq<u8>)
    requires
        p.len() == 0 || !is_digit(p.last()),
    ensures
        tokens(p + x) == tokens(p) + tokens(x),
    decreases p.len(),
{
    if p.len() == 0 {
        assert(p + x =~= x);
        assert(tokens(p) + tokens(x) =~= tokens(x));
    } else {
        let px = p + x;
        assert(px[0] == p[0]);
        lemma_digit_run_bounds(p);
        if is_digit(p[0]) {
            let k = digit_run(p) as int;
            assert(k < p.len()) by {
                if k == p.len() {
                    assert(is_digit(p[p.len() - 1]));
                }
            }
            assert forall|q: int| 0 <= q < k implies is_digit(#[trigger] px[q]) by {
                assert(px[q] == p[q]);
            }
            assert(px[k] == p[k]);
            lemma_digit_run_exact(px, k);
            assert(px.take(k) =~= p.take(k));
            assert(px.skip(k) =~= p.skip(k) + x);
            assert(p.skip(k).last() == p.last());
            lemma_tokens_concat(p.skip(k), x);
        } else {
            assert(px.skip(1) =~= p.skip(1) + x);
            if p.len() > 1 {
                assert(p.skip(1).last() == p.last());
            }
            lemma_tokens_concat(p.skip(1), x);
        }
    }
}

/// A run of digits followed by something else reads as one number token.
proof fn lemma_tokens_number(d: Seq<u8>, s: Seq<u8>)
    requires
        d.len() > 0,
        all_digits(d),
        s.len() == 0 || !is_digit(s[0]),
    ensures
        tokens(d + s) == seq![(48int, saturated(digits_value(d)) as int)] + tokens(s),
{
    let ds = d + s;
    assert forall|q: int| 0 <= q < d.len() implies is_digit(#[trigger] ds[q]) by {
        assert(ds[q] == d[q]);
    }
    if s.len() > 0 {
        assert(ds[d.len() as int] == s[0]);
    }
    lemma_digit_run_exact(ds, d.len() as int);
    assert(ds[0] == d[0]);
    assert(ds.take(d.len() as int) =~= d);
    assert(ds.skip(d.len() as int) =~= s);
}

proof fn lemma_lexicographic_common_prefix(t: Seq<(int, int)>, x: Seq<(int, int)>, y: Seq<(int, int)>)
    ensures
        lexicographic(t + x, t + y) == lexicographic(x, y),
    decreases t.len(),
{
    if t.len() == 0 {
        assert(t + x =~= x);
        assert(t + y =~= y);
    } else {
        assert((t + x)[0] == t[0]);
        assert((t + y)[0] == t[0]);
        assert((t + x).drop_first() =~= t.drop_first() + x);
        assert((t + y).drop_first() =~= t.drop_first() + y);
        lemma_lexicographic_common_prefix(t.drop_first(), x, y);
    }
}

/// The token of a run of digits.
pub open spec fn number_token(d: Seq<u8>) -> (int, int) {
    (48int, digits_value(d) as int)
}

/// The token of a byte that is not a digit.
pub open spec fn byte_token(b: u8) -> (int, int) {
    (b as int, 0int)
}

proof fn lemma_number_between(p: Seq<u8>, d: Seq<u8>, s: Seq<u8>)
    requires
        p.len() == 0 || !is_digit(p.last()),
        s.len() == 0 || !is_digit(s[0]),
        d.len() > 0,
        all_digits(d),
        digits_value(d) <= u128::MAX,
    ensures
        tokens(p + d + s) == tokens(p) + seq![number_token(d)] + tokens(s),
{
    assert(p + d + s =~= p + (d + s));
    lemma_tokens_concat(p, d + s);
    lemma_tokens_number(d, s);
    assert(saturated(digits_value(d)) as int == digits_value(d) as int);
    assert(tokens(p) + (seq![number_token(d)] + tokens(s)) =~= tokens(p) + seq![number_token(d)]
        + tokens(s));
}

proof fn lemma_byte_tokens(a: Seq<u8>)
    requires
        a.len() > 0,
        !is_digit(a[0]),
    ensures
        tokens(a) == seq![byte_token(a[0])] + tokens(a.drop_first()),
{
    assert(a.skip(1) =~= a.drop_first());
}

/// A number between the same prefix and suffix decides by its value, not by
/// how many digits it is written with: "page9" comes before "page10".
pub proof fn numbers_compare_by_value(p: Seq<u8>, d: Seq<u8>, e: Seq<u8>, s: Seq<u8>)
    requires
        p.len() == 0 || !is_digit(p.last()),
        s.len() == 0 || !is_digit(s[0]),
        d.len() > 0,
        e.len() > 0,
        all_digits(d),
        all_digits(e),
        digits_value(d) <= u128::MAX,
        digits_value(e) <= u128::MAX,
    ensures
        natural_order(p + d + s, p + e + s) == number_order(digits_value(d), digits_value(e)),
{
    lemma_number_between(p, d, s);
    lemma_number_between(p, e, s);
    let td = seq![number_token(d)] + tokens(s);
    let te = seq![number_token(e)] + tokens(s);
    assert(tokens(p) + seq![number_token(d)] + tokens(s) =~= tokens(p) + td);
    assert(tokens(p) + seq![number_token(e)] + tokens(s) =~= tokens(p) + te);
    lemma_lexicographic_common_prefix(tokens(p), td, te);
    if digits_value(d) == digits_value(e) {
        lemma_lexicographic_reflexive(td);
    }
}

/// Names without digits compare as plain bytes.
pub proof fn digit_free_names_compare_as_bytes(a: Seq<u8>, b: Seq<u8>)
    requires
        digit_free(a),
        digit_free(b),
    ensures
        natural_order(a, b) == byte_order(a, b),
    decreases a.len(),
{
    if a.len() > 0 && b.len() > 0 {
        assert(a.skip(1) =~= a.drop_first());
        assert(b.skip(1) =~= b.drop_first());
        assert(!is_digit(a[0]));
        assert(!is_digit(b[0]));
        lemma_byte_tokens(a);
        lemma_byte_tokens(b);
        let ta = tokens(a);
        let tb = tokens(b);
        assert(ta[0] == byte_token(a[0]));
        assert(tb[0] == byte_token(b[0]));
        assert(ta.drop_first() =~= tokens(a.drop_first()));
        assert(tb.drop_first() =~= tokens(b.drop_first()));
        assert(digit_free(a.drop_first())) by {
            assert forall|i: int| 0 <= i < a.drop_first().len() implies !is_digit(
                #[trigger] a.drop_first()[i],
            ) by {
                assert(a.drop_first()[i] == a[i + 1]);
            }
        }
        assert(digit_free(b.drop_first())) by {
            assert forall|i: int| 0 <= i < b.drop_first().len() implies !is_digit(
                #[trigger] b.drop_first()[i],
            ) by {
                assert(b.drop_first()[i] == b[i + 1]);
            }
        }
        digit_free_names_compare_as_bytes(a.drop_first(), b.drop_first());
    } else if a.len() > 0 {
        assert(!is_digit(a[0]));
        lemma_byte_tokens(a);
    } else if b.len() > 0 {
        assert(!is_digit(b[0]));
        lemma_byte_tokens(b);
    }
}

} // verus!
