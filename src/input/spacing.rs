//! Spaces between the tokens of an example do not change what it reads as.

use vstd::prelude::*;
use crate::ast::ValueView;
use crate::input::parser::{
    Dims, Failure, SegmentScan, child_key, dimension_pieces, dimension_step, dimensions,
    dimensions_from, dimensions_view, element, element_segments, elements, elements_from,
    int_value, is_digit, is_element_key, parse_spec, row_from, segment_scan, segment_step,
    segments, separator, separator_from, skip_spaces, unescape, unsigned_part,
};
use crate::text::{
    find, find_from, has_prefix, holds, is_space, split, split_pending, trim, trim_end, trim_start,
    unwrap,
};

verus! {

/// `n` spaces.
pub open spec fn blank(n: nat) -> Seq<char> {
    Seq::new(n, |i: int| ' ')
}

/// `s` does not hold `c`.
pub open spec fn free_of(s: Seq<char>, c: char) -> bool {
    forall|k: int| 0 <= k < s.len() ==> #[trigger] s[k] != c
}

/// `s` is not empty and neither begins nor ends with white space.
pub open spec fn solid(s: Seq<char>) -> bool {
    s.len() > 0 && !is_space(s[0]) && !is_space(s.last())
}

proof fn lemma_trim_start_blank(n: nat, x: Seq<char>)
    ensures
        trim_start(blank(n) + x) == trim_start(x),
    decreases n,
{
    if n > 0 {
        assert((blank(n) + x).drop_first() =~= blank((n - 1) as nat) + x);
        lemma_trim_start_blank((n - 1) as nat, x);
    } else {
        assert(blank(n) + x =~= x);
    }
}

proof fn lemma_trim_end_blank(x: Seq<char>, n: nat)
    ensures
        trim_end(x + blank(n)) == trim_end(x),
    decreases n,
{
    if n > 0 {
        assert((x + blank(n)).drop_last() =~= x + blank((n - 1) as nat));
        lemma_trim_end_blank(x, (n - 1) as nat);
    } else {
        assert(x + blank(n) =~= x);
    }
}

/// Spaces around a solid text are trimmed away.
pub proof fn lemma_trim_blanks(n: nat, x: Seq<char>, m: nat)
    requires
        solid(x),
    ensures
        trim(blank(n) + x + blank(m)) == x,
{
    assert(blank(n) + x + blank(m) =~= blank(n) + (x + blank(m)));
    lemma_trim_start_blank(n, x + blank(m));
    assert((x + blank(m))[0] == x[0]);
    lemma_trim_end_blank(x, m);
}

/// The separator scan passes over characters that are no parentheses while
/// inside the dimensions.
proof fn lemma_separator_inside(s: Seq<char>, i: int, j: int, depth: nat)
    requires
        0 <= i <= j <= s.len(),
        depth >= 1,
        forall|k: int| i <= k < j ==> s[k] != '(' && s[k] != ')',
    ensures
        separator_from(s, i, depth) == separator_from(s, j, depth),
    decreases j - i,
{
    if i < j {
        lemma_separator_inside(s, i + 1, j, depth);
    }
}

/// The separator scan passes over spaces before the dimensions.
proof fn lemma_separator_before(s: Seq<char>, i: int, j: int)
    requires
        0 <= i <= j <= s.len(),
        forall|k: int| i <= k < j ==> s[k] == ' ',
    ensures
        separator_from(s, i, 0) == separator_from(s, j, 0),
    decreases j - i,
{
    if i < j {
        lemma_separator_before(s, i + 1, j);
    }
}

/// Skipping white space stops at the first character that is none.
proof fn lemma_skip_spaces(s: Seq<char>, i: int, j: int)
    requires
        0 <= i <= j < s.len(),
        forall|k: int| i <= k < j ==> s[k] == ' ',
        !is_space(s[j]),
    ensures
        skip_spaces(s, i) == j,
    decreases j - i,
{
    if i < j {
        lemma_skip_spaces(s, i + 1, j);
    }
}

/// The first `c` in `x + [c] + y`, where `x` has none, is right after `x`.
proof fn lemma_find_after(x: Seq<char>, c: char, y: Seq<char>, i: int)
    requires
        0 <= i <= x.len(),
        free_of(x, c),
    ensures
        find_from(x + seq![c] + y, c, i) == Some(x.len() as int),
    decreases x.len() - i,
{
    let s = x + seq![c] + y;
    if i < x.len() {
        assert(s[i] == x[i]);
        lemma_find_after(x, c, y, i + 1);
    } else {
        assert(s[i] == c);
    }
}

/// Cutting a text with no `sep` leaves it whole and open.
proof fn lemma_split_pending_free(s: Seq<char>, sep: char)
    requires
        free_of(s, sep),
    ensures
        split_pending(s, sep) == (Seq::<Seq<char>>::empty(), s),
    decreases s.len(),
{
    if s.len() > 0 {
        assert(free_of(s.drop_last(), sep)) by {
            assert forall|k: int| 0 <= k < s.drop_last().len() implies #[trigger] s.drop_last()[k]
                != sep by {
                assert(s.drop_last()[k] == s[k]);
            }
        }
        lemma_split_pending_free(s.drop_last(), sep);
        assert(s.last() != sep);
        assert(s.drop_last().push(s.last()) =~= s);
    } else {
        assert(s =~= Seq::<char>::empty());
    }
}

/// Text with no `sep` appended to `p` extends the open piece.
proof fn lemma_split_pending_append(p: Seq<char>, y: Seq<char>, sep: char)
    requires
        free_of(y, sep),
    ensures
        split_pending(p + y, sep) == (split_pending(p, sep).0, split_pending(p, sep).1 + y),
    decreases y.len(),
{
    if y.len() == 0 {
        assert(p + y =~= p);
        assert(split_pending(p, sep).1 + y =~= split_pending(p, sep).1);
    } else {
        assert((p + y).drop_last() =~= p + y.drop_last());
        assert(free_of(y.drop_last(), sep)) by {
            assert forall|k: int| 0 <= k < y.drop_last().len() implies #[trigger] y.drop_last()[k]
                != sep by {
                assert(y.drop_last()[k] == y[k]);
            }
        }
        lemma_split_pending_append(p, y.drop_last(), sep);
        assert((p + y).last() == y.last());
        assert(y.last() != sep);
        assert(split_pending(p, sep).1 + y.drop_last() + seq![y.last()] =~= split_pending(p, sep).1
            + y);
        assert((split_pending(p, sep).1 + y.drop_last()).push(y.last()) =~= split_pending(p, sep).1
            + y);
    }
}

/// A text with exactly one `sep` is cut in two there.
pub proof fn lemma_split_two(x: Seq<char>, sep: char, y: Seq<char>)
    requires
        free_of(x, sep),
        free_of(y, sep),
    ensures
        split(x + seq![sep] + y, sep) == seq![x, y],
{
    lemma_split_pending_free(x, sep);
    let p = x + seq![sep];
    assert(p.drop_last() =~= x);
    assert(split_pending(p, sep) == (seq![x], Seq::<char>::empty()));
    lemma_split_pending_append(p, y, sep);
    assert(Seq::<char>::empty() + y =~= y);
    assert(split(x + seq![sep] + y, sep) =~= seq![x, y]);
}

/// A number as `int_value` reads it: an optional sign and at least one digit.
pub open spec fn number_chars(w: Seq<char>) -> bool {
    &&& w.len() > 0
    &&& is_digit(w.last())
    &&& forall|k: int| 0 <= k < w.len() ==> is_digit(#[trigger] w[k]) || w[k] == '-' || w[k] == '+'
}

proof fn lemma_number_chars(w: Seq<char>)
    requires
        int_value(w) is Some,
    ensures
        number_chars(w),
        solid(w),
        free_of(w, ':') && free_of(w, ',') && free_of(w, '(') && free_of(w, ')'),
{
    let d = unsigned_part(w);
    if w.len() > 0 && (w[0] == '-' || w[0] == '+') {
        assert forall|k: int| 0 <= k < w.len() implies is_digit(#[trigger] w[k]) || w[k] == '-'
            || w[k] == '+' by {
            if k > 0 {
                assert(w[k] == d[k - 1]);
            }
        }
        assert(w.last() == d.last());
    }
}

/// One `key : value` piece with spaces around each token.
pub open spec fn spaced_pair(a: nat, key: Seq<char>, b: nat, c: nat, v: Seq<char>, e: nat) -> Seq<
    char,
> {
    blank(a) + key + blank(b) + seq![':'] + blank(c) + v + blank(e)
}

proof fn lemma_blank_free(n: nat, c: char)
    requires
        c != ' ',
    ensures
        free_of(blank(n), c),
{
}

proof fn lemma_spaced_pair(a: nat, key: Seq<char>, b: nat, c: nat, v: Seq<char>, e: nat)
    requires
        solid(key),
        solid(v),
        free_of(key, ':'),
    ensures
        ({
            let p = trim(spaced_pair(a, key, b, c, v, e));
            &&& p == key + blank(b) + seq![':'] + blank(c) + v
            &&& find(p, ':') == Some((key.len() + b) as int)
            &&& trim(p.subrange(0, (key.len() + b) as int)) == key
            &&& trim(p.subrange((key.len() + b + 1) as int, p.len() as int)) == v
        }),
{
    let q = key + blank(b) + seq![':'] + blank(c) + v;
    assert(spaced_pair(a, key, b, c, v, e) =~= blank(a) + q + blank(e));
    assert(q[0] == key[0]);
    assert(q.last() == v.last());
    lemma_trim_blanks(a, q, e);
    let x = key + blank(b);
    assert(free_of(x, ':')) by {
        assert forall|k: int| 0 <= k < x.len() implies #[trigger] x[k] != ':' by {
            if k >= key.len() {
                assert(x[k] == ' ');
            } else {
                assert(x[k] == key[k]);
            }
        }
    }
    assert(q =~= x + seq![':'] + (blank(c) + v));
    lemma_find_after(x, ':', blank(c) + v, 0);
    assert(q.subrange(0, (key.len() + b) as int) =~= blank(0) + key + blank(b));
    lemma_trim_blanks(0, key, b);
    assert(q.subrange((key.len() + b + 1) as int, q.len() as int) =~= blank(c) + v + blank(0));
    lemma_trim_blanks(c, v, 0);
}

/// Two `key : value` pieces in parentheses, with `gap(k)` spaces in the k-th
/// gap.
pub open spec fn spaced_pairs(
    k1: Seq<char>,
    v1: Seq<char>,
    k2: Seq<char>,
    v2: Seq<char>,
    gap: spec_fn(int) -> nat,
) -> Seq<char> {
    seq!['('] + spaced_pair(gap(0), k1, gap(1), gap(2), v1, gap(3)) + seq![','] + spaced_pair(
        gap(4),
        k2,
        gap(5),
        gap(6),
        v2,
        gap(7),
    ) + seq![')']
}

/// The dimensions written token by token, `width` first or `height` first,
/// with `gap(k)` spaces in the k-th gap.
pub open spec fn spaced_dimensions(
    w: Seq<char>,
    h: Seq<char>,
    height_first: bool,
    gap: spec_fn(int) -> nat,
) -> Seq<char> {
    if height_first {
        spaced_pairs("height"@, h, "width"@, w, gap)
    } else {
        spaced_pairs("width"@, w, "height"@, h, gap)
    }
}

proof fn lemma_words()
    ensures
        solid("width"@) && free_of("width"@, ':') && free_of("width"@, ',') && free_of(
            "width"@,
            '(',
        ) && free_of("width"@, ')'),
        solid("height"@) && free_of("height"@, ':') && free_of("height"@, ',') && free_of(
            "height"@,
            '(',
        ) && free_of("height"@, ')'),
        "width"@ != "height"@,
{
    reveal_strlit("width");
    reveal_strlit("height");
}

proof fn lemma_pair_free(a: nat, key: Seq<char>, b: nat, c: nat, v: Seq<char>, e: nat, x: char)
    requires
        x != ' ' && x != ':',
        free_of(key, x),
        free_of(v, x),
    ensures
        free_of(spaced_pair(a, key, b, c, v, e), x),
{
    let s = spaced_pair(a, key, b, c, v, e);
    assert forall|k: int| 0 <= k < s.len() implies #[trigger] s[k] != x by {
        let k1 = a as int;
        let k2 = k1 + key.len();
        let k3 = k2 + b;
        let k4 = k3 + 1;
        let k5 = k4 + c;
        let k6 = k5 + v.len();
        if k < k1 {
            assert(s[k] == ' ');
        } else if k < k2 {
            assert(s[k] == key[k - k1]);
        } else if k < k3 {
            assert(s[k] == ' ');
        } else if k < k4 {
            assert(s[k] == ':');
        } else if k < k5 {
            assert(s[k] == ' ');
        } else if k < k6 {
            assert(s[k] == v[k - k5]);
        } else {
            assert(s[k] == ' ');
        }
    }
}

/// A token that the dimensions scan and split leave whole.
pub open spec fn plain_token(t: Seq<char>) -> bool {
    solid(t) && free_of(t, ':') && free_of(t, ',') && free_of(t, '(') && free_of(t, ')')
}

/// Two spaced pairs in parentheses hold no other parenthesis and cut into
/// the two pieces.
proof fn lemma_spaced_pairs(
    k1: Seq<char>,
    v1: Seq<char>,
    k2: Seq<char>,
    v2: Seq<char>,
    gap: spec_fn(int) -> nat,
)
    requires
        plain_token(k1) && plain_token(v1) && plain_token(k2) && plain_token(v2),
    ensures
        ({
            let d = spaced_pairs(k1, v1, k2, v2, gap);
            &&& d.len() >= 2 && d[0] == '(' && d.last() == ')'
            &&& forall|k: int| 1 <= k < d.len() - 1 ==> d[k] != '(' && d[k] != ')'
            &&& !holds(unwrap(d), '(') && !holds(unwrap(d), ')')
            &&& dimension_pieces(d) == seq![
                spaced_pair(0, k1, gap(1), gap(2), v1, gap(3)),
                spaced_pair(gap(4), k2, gap(5), gap(6), v2, 0),
            ]
        }),
{
    let p1 = spaced_pair(gap(0), k1, gap(1), gap(2), v1, gap(3));
    let p2 = spaced_pair(gap(4), k2, gap(5), gap(6), v2, gap(7));
    let d = spaced_pairs(k1, v1, k2, v2, gap);
    let u = p1 + seq![','] + p2;
    assert(unwrap(d) =~= u);
    lemma_pair_free(gap(0), k1, gap(1), gap(2), v1, gap(3), ',');
    lemma_pair_free(gap(4), k2, gap(5), gap(6), v2, gap(7), ',');
    lemma_pair_free(gap(0), k1, gap(1), gap(2), v1, gap(3), '(');
    lemma_pair_free(gap(4), k2, gap(5), gap(6), v2, gap(7), '(');
    lemma_pair_free(gap(0), k1, gap(1), gap(2), v1, gap(3), ')');
    lemma_pair_free(gap(4), k2, gap(5), gap(6), v2, gap(7), ')');
    assert forall|k: int| 1 <= k < d.len() - 1 implies d[k] != '(' && d[k] != ')' by {
        let j = k - 1;
        if j < p1.len() {
            assert(d[k] == p1[j]);
        } else if j > p1.len() {
            assert(d[k] == p2[j - p1.len() - 1]);
        }
    }
    assert(!holds(u, '(')) by {
        if holds(u, '(') {
            let k = choose|k: int| 0 <= k < u.len() && u[k] == '(';
            assert(u[k] == d[k + 1]);
        }
    }
    assert(!holds(u, ')')) by {
        if holds(u, ')') {
            let k = choose|k: int| 0 <= k < u.len() && u[k] == ')';
            assert(u[k] == d[k + 1]);
        }
    }
    // The interior trims to the tokens from the first key to the last value.
    let t1 = k1 + blank(gap(1)) + seq![':'] + blank(gap(2)) + v1 + blank(gap(3));
    let t2 = blank(gap(4)) + k2 + blank(gap(5)) + seq![':'] + blank(gap(6)) + v2;
    let t = t1 + seq![','] + t2;
    assert(u =~= blank(gap(0)) + t + blank(gap(7)));
    assert(t[0] == k1[0]);
    assert(t.last() == v2.last());
    lemma_trim_blanks(gap(0), t, gap(7));
    assert(free_of(t1, ',')) by {
        assert forall|k: int| 0 <= k < t1.len() implies #[trigger] t1[k] != ',' by {
            assert(t1[k] == p1[k + gap(0)]);
        }
    }
    assert(free_of(t2, ',')) by {
        assert forall|k: int| 0 <= k < t2.len() implies #[trigger] t2[k] != ',' by {
            assert(t2[k] == p2[k]);
        }
    }
    lemma_split_two(t1, ',', t2);
    assert(t1 =~= spaced_pair(0, k1, gap(1), gap(2), v1, gap(3)));
    assert(t2 =~= spaced_pair(gap(4), k2, gap(5), gap(6), v2, 0));
}

proof fn lemma_plain_tokens(w: Seq<char>, h: Seq<char>)
    requires
        int_value(w) is Some,
        int_value(h) is Some,
    ensures
        plain_token("width"@) && plain_token("height"@) && plain_token(w) && plain_token(h),
        "width"@ != "height"@,
{
    lemma_words();
    lemma_number_chars(w);
    lemma_number_chars(h);
}

/// However many spaces stand between the tokens of the dimensions, and in
/// either order of the two keys, they read as the same width and height.
pub proof fn lemma_spaced_dimensions(
    w: Seq<char>,
    h: Seq<char>,
    height_first: bool,
    gap: spec_fn(int) -> nat,
)
    requires
        int_value(w) is Some,
        int_value(h) is Some,
    ensures
        dimensions(spaced_dimensions(w, h, height_first, gap)) == Ok::<(i32, i32), Failure>(
            (int_value(w)->Some_0, int_value(h)->Some_0),
        ),
{
    lemma_plain_tokens(w, h);
    let wn = int_value(w)->Some_0;
    let hn = int_value(h)->Some_0;
    let (k1, v1, k2, v2) = if height_first {
        ("height"@, h, "width"@, w)
    } else {
        ("width"@, w, "height"@, h)
    };
    lemma_spaced_pairs(k1, v1, k2, v2, gap);
    let t1 = spaced_pair(0, k1, gap(1), gap(2), v1, gap(3));
    let t2 = spaced_pair(gap(4), k2, gap(5), gap(6), v2, 0);
    lemma_spaced_pair(0, k1, gap(1), gap(2), v1, gap(3));
    lemma_spaced_pair(gap(4), k2, gap(5), gap(6), v2, 0);
    if height_first {
        assert(dimension_step((None, None), t1) == Ok::<Dims, Failure>((None, Some(hn))));
        assert(dimension_step((None, Some(hn)), t2) == Ok::<Dims, Failure>((Some(wn), Some(hn))));
        assert(dimensions_from(seq![t1, t2], 1, (None, Some(hn))) == Ok::<Dims, Failure>(
            (Some(wn), Some(hn)),
        ));
    } else {
        assert(dimension_step((None, None), t1) == Ok::<Dims, Failure>((Some(wn), None)));
        assert(dimension_step((Some(wn), None), t2) == Ok::<Dims, Failure>((Some(wn), Some(hn))));
        assert(dimensions_from(seq![t1, t2], 1, (Some(wn), None)) == Ok::<Dims, Failure>(
            (Some(wn), Some(hn)),
        ));
    }
    assert(dimensions_from(seq![t1, t2], 2, (Some(wn), Some(hn))) == Ok::<Dims, Failure>(
        (Some(wn), Some(hn)),
    ));
}

/// An example written token by token: the envelope, the dimensions and the
/// separator with `gap(k)` spaces in the k-th gap, around the element text `e`.
pub open spec fn spaced_example(
    w: Seq<char>,
    h: Seq<char>,
    height_first: bool,
    e: Seq<char>,
    gap: spec_fn(int) -> nat,
) -> Seq<char> {
    blank(gap(8)) + seq!['{'] + blank(gap(9)) + spaced_dimensions(w, h, height_first, gap) + blank(
        gap(10),
    )
        + seq![':'] + blank(gap(11)) + e + blank(gap(12)) + seq!['}'] + blank(gap(13))
}

/// The dimensions text opens with `(`, closes with `)` and holds no other
/// parenthesis.
proof fn lemma_dimensions_shape(
    w: Seq<char>,
    h: Seq<char>,
    height_first: bool,
    gap: spec_fn(int) -> nat,
)
    requires
        int_value(w) is Some,
        int_value(h) is Some,
    ensures
        ({
            let d = spaced_dimensions(w, h, height_first, gap);
            &&& d.len() >= 2 && d[0] == '(' && d.last() == ')'
            &&& forall|k: int| 1 <= k < d.len() - 1 ==> d[k] != '(' && d[k] != ')'
        }),
{
    lemma_plain_tokens(w, h);
    if height_first {
        lemma_spaced_pairs("height"@, h, "width"@, w, gap);
    } else {
        lemma_spaced_pairs("width"@, w, "height"@, h, gap);
    }
}

/// The separator of `blank(n) + d + blank(m) + ":" + rest`, where `d` is a
/// parenthesized text with no parenthesis inside, is the `:`.
proof fn lemma_separator_after(n: nat, d: Seq<char>, m: nat, rest: Seq<char>)
    requires
        d.len() >= 2 && d[0] == '(' && d.last() == ')',
        forall|k: int| 1 <= k < d.len() - 1 ==> d[k] != '(' && d[k] != ')',
    ensures
        separator(blank(n) + d + blank(m) + seq![':'] + rest) == Ok::<int, Failure>(
            (n + d.len() + m) as int,
        ),
{
    let inner = blank(n) + d + blank(m) + seq![':'] + rest;
    let a = n as int;
    let z = a + d.len() - 1;
    let c = z + 1 + m;
    assert(inner[a] == '(');
    assert(inner[z] == ')');
    assert(inner[c] == ':');
    assert forall|k: int| 0 <= k < a implies inner[k] == ' ' by {}
    lemma_separator_before(inner, 0, a);
    assert forall|k: int| a + 1 <= k < z implies inner[k] != '(' && inner[k] != ')' by {
        assert(inner[k] == d[k - a]);
    }
    lemma_separator_inside(inner, a + 1, z, 1);
    assert forall|k: int| z + 1 <= k < c implies inner[k] == ' ' by {}
    lemma_skip_spaces(inner, z + 1, c);
}

/// Spaces around the envelope, the dimensions' tokens and the separator do
/// not change the reading: it is the dimensions' width and height with what
/// the element text reads as.
pub proof fn lemma_spaced_example(
    w: Seq<char>,
    h: Seq<char>,
    height_first: bool,
    e: Seq<char>,
    gap: spec_fn(int) -> nat,
)
    requires
        int_value(w) is Some,
        int_value(h) is Some,
        solid(e),
    ensures
        parse_spec(spaced_example(w, h, height_first, e, gap)) == match elements(e) {
            Err(f) => Err(f),
            Ok(ev) => Ok((dimensions_view(int_value(w)->Some_0, int_value(h)->Some_0), ev)),
        },
{
    let d = spaced_dimensions(w, h, height_first, gap);
    lemma_spaced_dimensions(w, h, height_first, gap);
    lemma_dimensions_shape(w, h, height_first, gap);
    let rest = blank(gap(11)) + e + blank(gap(12));
    let inner = blank(gap(9)) + d + blank(gap(10)) + seq![':'] + rest;
    let t = seq!['{'] + inner + seq!['}'];
    assert(spaced_example(w, h, height_first, e, gap) =~= blank(gap(8)) + t + blank(gap(13)));
    lemma_trim_blanks(gap(8), t, gap(13));
    assert(unwrap(t) =~= inner);
    lemma_separator_after(gap(9), d, gap(10), rest);
    let c = (gap(9) + d.len() + gap(10)) as int;
    assert(inner.subrange(0, c) =~= blank(gap(9)) + d + blank(gap(10)));
    assert(inner.subrange(c + 1, inner.len() as int) =~= blank(gap(11)) + e + blank(gap(12)));
    lemma_trim_blanks(gap(9), d, gap(10));
    lemma_trim_blanks(gap(11), e, gap(12));
}

/// The comma scan of `s` started from `st`.
pub open spec fn scan_on(st: SegmentScan, s: Seq<char>) -> SegmentScan
    decreases s.len(),
{
    if s.len() == 0 {
        st
    } else {
        segment_step(scan_on(st, s.drop_last()), s.last())
    }
}

pub open spec fn scan_start() -> SegmentScan {
    SegmentScan { done: Seq::empty(), current: Seq::empty(), in_quotes: false, escaped: false }
}

proof fn lemma_scan_on_start(s: Seq<char>)
    ensures
        segment_scan(s) == scan_on(scan_start(), s),
    decreases s.len(),
{
    if s.len() > 0 {
        lemma_scan_on_start(s.drop_last());
    }
}

proof fn lemma_scan_on_concat(st: SegmentScan, a: Seq<char>, b: Seq<char>)
    ensures
        scan_on(st, a + b) == scan_on(scan_on(st, a), b),
    decreases b.len(),
{
    if b.len() == 0 {
        assert(a + b =~= a);
    } else {
        assert((a + b).drop_last() =~= a + b.drop_last());
        lemma_scan_on_concat(st, a, b.drop_last());
    }
}

/// Characters that are neither quotes nor backslashes, and no commas outside
/// quotes, are copied into the open segment.
proof fn lemma_scan_plain(st: SegmentScan, s: Seq<char>)
    requires
        !st.escaped,
        free_of(s, '"') && free_of(s, '\\'),
        st.in_quotes || free_of(s, ','),
    ensures
        scan_on(st, s) == (SegmentScan { current: st.current + s, ..st }),
    decreases s.len(),
{
    if s.len() == 0 {
        assert(st.current + s =~= st.current);
    } else {
        let t = s.drop_last();
        assert(free_of(t, '"') && free_of(t, '\\') && (st.in_quotes || free_of(t, ','))) by {
            assert forall|k: int| 0 <= k < t.len() implies #[trigger] t[k] == s[k] by {}
        }
        lemma_scan_plain(st, t);
        assert(s.last() == s[s.len() - 1]);
        assert(st.current + t + seq![s.last()] =~= st.current + s);
    }
}

pub open spec fn quoted(v: Seq<char>) -> Seq<char> {
    seq!['"'] + v + seq!['"']
}

/// The comma scan inside quotes, from an empty segment.
pub open spec fn quote_start() -> SegmentScan {
    SegmentScan { done: Seq::empty(), current: Seq::empty(), in_quotes: true, escaped: false }
}

/// A value's text that can stand between quotes: the scan keeps it in one
/// segment and ends inside the quotes with no escape pending.
pub open spec fn quoted_body(v: Seq<char>) -> bool {
    let r = scan_on(quote_start(), v);
    r.done.len() == 0 && r.in_quotes && !r.escaped
}

/// What the comma scan keeps of a value's text between quotes.
pub open spec fn resolved(v: Seq<char>) -> Seq<char> {
    scan_on(quote_start(), v).current
}

/// What the comma scan keeps of a quoted value.
pub open spec fn token(v: Seq<char>) -> Seq<char> {
    seq!['"'] + resolved(v) + seq!['"']
}

/// The scan of a text that stays in one segment depends on the state it
/// starts from only through the flags: it appends to the open segment.
proof fn lemma_scan_shift(st: SegmentScan, v: Seq<char>)
    requires
        st.in_quotes && !st.escaped,
        scan_on(quote_start(), v).done.len() == 0,
    ensures
        scan_on(st, v) == (SegmentScan {
            done: st.done,
            current: st.current + scan_on(quote_start(), v).current,
            in_quotes: scan_on(quote_start(), v).in_quotes,
            escaped: scan_on(quote_start(), v).escaped,
        }),
    decreases v.len(),
{
    let r = scan_on(quote_start(), v);
    if v.len() == 0 {
        assert(st.current + Seq::<char>::empty() =~= st.current);
    } else {
        let r0 = scan_on(quote_start(), v.drop_last());
        assert(r0.done.len() <= r.done.len());
        lemma_scan_shift(st, v.drop_last());
        let c = v.last();
        let added = if r0.escaped && (c == '\\' || c == '"') {
            seq![c]
        } else if r0.escaped {
            seq!['\\', c]
        } else {
            seq![c]
        };
        assert((st.current + r0.current).push(c) =~= st.current + r0.current.push(c));
        assert(st.current + r0.current + added =~= st.current + (r0.current + added));
    }
}

/// A quoted value, met outside quotes, leaves its token in the open segment
/// and the scan outside quotes again.
proof fn lemma_scan_quoted(st: SegmentScan, v: Seq<char>)
    requires
        !st.escaped,
        !st.in_quotes,
        quoted_body(v),
    ensures
        scan_on(st, quoted(v)) == (SegmentScan { current: st.current + token(v), ..st }),
{
    let q1 = seq!['"'];
    assert(scan_on(st, q1.drop_last()) == st);
    let st1 = SegmentScan { current: st.current + q1, in_quotes: true, ..st };
    assert(scan_on(st, q1) == st1) by {
        assert(st.current.push('"') =~= st.current + q1);
    }
    lemma_scan_on_concat(st, q1, v);
    lemma_scan_shift(st1, v);
    let st2 = SegmentScan { current: st1.current + resolved(v), ..st1 };
    lemma_scan_on_concat(st, q1 + v, q1);
    assert(quoted(v) =~= q1 + v + q1);
    assert(scan_on(st2, q1) == (SegmentScan { current: st.current + token(v), ..st })) by {
        assert(scan_on(st2, q1.drop_last()) == st2);
        assert(st2.current.push('"') =~= st.current + token(v));
    }
}

/// One item `key : "value"`, with `gap` spaces around its colon.
pub open spec fn spaced_item(key: Seq<char>, v: Seq<char>, j: int, gap: spec_fn(int) -> nat) -> Seq<
    char,
> {
    key + blank(gap(20 + 4 * j)) + seq![':'] + blank(gap(21 + 4 * j)) + quoted(v)
}

/// What the comma scan keeps of an item.
pub open spec fn scanned_item(key: Seq<char>, v: Seq<char>, j: int, gap: spec_fn(int) -> nat) -> Seq<
    char,
> {
    key + blank(gap(20 + 4 * j)) + seq![':'] + blank(gap(21 + 4 * j)) + token(v)
}

/// A key that the comma scan copies as it is.
pub open spec fn plain_key(k: Seq<char>) -> bool {
    solid(k) && free_of(k, '"') && free_of(k, '\\') && free_of(k, ',') && free_of(k, ':')
}

proof fn lemma_element_keys_plain(k: Seq<char>)
    requires
        is_element_key(k),
    ensures
        plain_key(k),
{
    reveal_strlit("title");
    reveal_strlit("button");
    reveal_strlit("Image");
}

proof fn lemma_scan_item(st: SegmentScan, key: Seq<char>, v: Seq<char>, j: int, gap: spec_fn(int) -> nat)
    requires
        !st.escaped,
        !st.in_quotes,
        plain_key(key),
        quoted_body(v),
    ensures
        scan_on(st, spaced_item(key, v, j, gap)) == (SegmentScan {
            current: st.current + scanned_item(key, v, j, gap),
            ..st
        }),
{
    let head = key + blank(gap(20 + 4 * j)) + seq![':'] + blank(gap(21 + 4 * j));
    assert(free_of(head, '"') && free_of(head, '\\') && free_of(head, ',')) by {
        assert forall|k: int| 0 <= k < head.len() implies #[trigger] head[k] != '"' && head[k]
            != '\\' && head[k] != ',' by {
            if k < key.len() {
                assert(head[k] == key[k]);
            }
        }
    }
    lemma_scan_plain(st, head);
    let st1 = SegmentScan { current: st.current + head, ..st };
    lemma_scan_quoted(st1, v);
    assert(spaced_item(key, v, j, gap) =~= head + quoted(v));
    lemma_scan_on_concat(st, head, quoted(v));
    assert(st.current + head + token(v) =~= st.current + scanned_item(key, v, j, gap));
}

/// The items of a keyed block, with spaces around each comma and colon.
pub open spec fn spaced_items(items: Seq<(Seq<char>, Seq<char>)>, gap: spec_fn(int) -> nat) -> Seq<
    char,
>
    decreases items.len(),
{
    if items.len() == 0 {
        Seq::empty()
    } else if items.len() == 1 {
        spaced_item(items[0].0, items[0].1, 0, gap)
    } else {
        let j = items.len() - 1;
        spaced_items(items.drop_last(), gap) + blank(gap(22 + 4 * j)) + seq![','] + blank(
            gap(23 + 4 * j),
        ) + spaced_item(items.last().0, items.last().1, j, gap)
    }
}

/// A keyed element block written token by token.
pub open spec fn spaced_block(items: Seq<(Seq<char>, Seq<char>)>, gap: spec_fn(int) -> nat) -> Seq<
    char,
> {
    seq!['{'] + blank(gap(14)) + spaced_items(items, gap) + blank(gap(15)) + seq!['}']
}

/// The items, each one with a valid key and a value text that can stand
/// between quotes.
pub open spec fn valid_items(items: Seq<(Seq<char>, Seq<char>)>) -> bool {
    forall|j: int| 0 <= j < items.len() ==> is_element_key(#[trigger] items[j].0) && quoted_body(
        items[j].1,
    )
}

/// The model of the entries that `items` declare.
pub open spec fn items_view(items: Seq<(Seq<char>, Seq<char>)>) -> Seq<(Seq<char>, ValueView)> {
    items.map_values(
        |it: (Seq<char>, Seq<char>)| (it.0, ValueView::Str(unescape(resolved(it.1)))),
    )
}

proof fn lemma_trim_start_append(c: Seq<char>, y: Seq<char>)
    requires
        trim_start(c).len() > 0,
    ensures
        trim_start(c + y) == trim_start(c) + y,
    decreases c.len(),
{
    if c.len() > 0 && is_space(c[0]) {
        assert((c + y).drop_first() =~= c.drop_first() + y);
        lemma_trim_start_append(c.drop_first(), y);
    } else if c.len() > 0 {
        assert((c + y)[0] == c[0]);
    }
}

proof fn lemma_trim_append_blank(c: Seq<char>, n: nat)
    requires
        solid(trim(c)),
    ensures
        trim(c + blank(n)) == trim(c),
{
    assert(trim_end(trim_start(c)).len() > 0);
    assert(trim_start(c).len() > 0) by {
        if trim_start(c).len() == 0 {
            assert(trim_end(trim_start(c)) == trim_start(c));
        }
    }
    lemma_trim_start_append(c, blank(n));
    lemma_trim_end_blank(trim_start(c), n);
}

proof fn lemma_item_solid(key: Seq<char>, v: Seq<char>, j: int, gap: spec_fn(int) -> nat)
    requires
        solid(key),
    ensures
        solid(spaced_item(key, v, j, gap)),
        solid(scanned_item(key, v, j, gap)),
{
    let it = spaced_item(key, v, j, gap);
    assert(it[0] == key[0]);
    assert(it.last() == '"');
    let sc = scanned_item(key, v, j, gap);
    assert(sc[0] == key[0]);
    assert(sc.last() == '"');
}

/// After the comma scan of the items, the `j`-th segment trims to what the
/// scan keeps of the `j`-th item, and the scan stands outside quotes and
/// escapes.
/// From outside quotes, the spaces and comma before an item close the open
/// segment, and the item opens the next one.
proof fn lemma_scan_next_item(
    st0: SegmentScan,
    a: nat,
    b: nat,
    key: Seq<char>,
    v: Seq<char>,
    j: int,
    gap: spec_fn(int) -> nat,
)
    requires
        !st0.in_quotes && !st0.escaped,
        plain_key(key),
        quoted_body(v),
    ensures
        scan_on(st0, blank(a) + seq![','] + blank(b) + spaced_item(key, v, j, gap)) == (SegmentScan {
            done: st0.done.push(st0.current + blank(a)),
            current: blank(b) + scanned_item(key, v, j, gap),
            in_quotes: false,
            escaped: false,
        }),
{
    let x = blank(a);
    let y = blank(b);
    let last = spaced_item(key, v, j, gap);
    lemma_scan_plain(st0, x);
    let st1 = SegmentScan { current: st0.current + x, ..st0 };
    let comma = seq![','];
    assert(scan_on(st1, comma.drop_last()) == st1);
    let st2 = SegmentScan {
        done: st0.done.push(st0.current + x),
        current: Seq::empty(),
        escaped: false,
        ..st0
    };
    assert(scan_on(st1, comma) == st2);
    lemma_scan_plain(st2, y);
    let st3 = SegmentScan { current: Seq::<char>::empty() + y, ..st2 };
    lemma_scan_item(st3, key, v, j, gap);
    lemma_scan_on_concat(st0, x, comma);
    lemma_scan_on_concat(st0, x + comma, y);
    lemma_scan_on_concat(st0, x + comma + y, last);
    assert(Seq::<char>::empty() + y + scanned_item(key, v, j, gap) =~= y + scanned_item(key, v, j, gap));
}

proof fn lemma_scan_items(items: Seq<(Seq<char>, Seq<char>)>, gap: spec_fn(int) -> nat)
    requires
        items.len() >= 1,
        valid_items(items),
    ensures
        ({
            let st = segment_scan(spaced_items(items, gap));
            &&& !st.in_quotes && !st.escaped
            &&& st.done.len() == items.len() - 1
            &&& forall|j: int| 0 <= j < items.len() - 1 ==> trim(#[trigger] st.done[j])
                == scanned_item(items[j].0, items[j].1, j, gap)
            &&& trim(st.current) == scanned_item(
                items.last().0,
                items.last().1,
                items.len() - 1,
                gap,
            )
        }),
    decreases items.len(),
{
    let n = items.len();
    let last = spaced_item(items.last().0, items.last().1, n - 1, gap);
    let seen = scanned_item(items.last().0, items.last().1, n - 1, gap);
    lemma_element_keys_plain(items.last().0);
    lemma_item_solid(items.last().0, items.last().1, n - 1, gap);
    if n == 1 {
        lemma_scan_on_start(spaced_items(items, gap));
        lemma_scan_item(scan_start(), items[0].0, items[0].1, 0, gap);
        assert(Seq::<char>::empty() + seen =~= seen);
        lemma_trim_blanks(0, seen, 0);
        assert(blank(0) + seen + blank(0) =~= seen);
    } else {
        let front = items.drop_last();
        assert(valid_items(front)) by {
            assert forall|j: int| 0 <= j < front.len() implies is_element_key(
                #[trigger] front[j].0,
            ) && quoted_body(front[j].1) by {
                assert(front[j] == items[j]);
            }
        }
        lemma_scan_items(front, gap);
        let st0 = segment_scan(spaced_items(front, gap));
        let j = n - 1;
        let x = blank(gap(22 + 4 * j));
        let y = blank(gap(23 + 4 * j));
        lemma_scan_on_start(spaced_items(front, gap));
        lemma_scan_on_start(spaced_items(items, gap));
        lemma_scan_next_item(st0, gap(22 + 4 * j), gap(23 + 4 * j), items.last().0, items.last().1, j, gap);
        let sf = spaced_items(front, gap);
        let rest = x + seq![','] + y + last;
        lemma_scan_on_concat(scan_start(), sf, rest);
        assert(spaced_items(items, gap) =~= sf + rest);
        let st = segment_scan(spaced_items(items, gap));
        assert(st.current == y + seen);
        assert(y + seen =~= blank(gap(23 + 4 * j)) + seen + blank(0));
        lemma_trim_blanks(gap(23 + 4 * j), seen, 0);
        lemma_element_keys_plain(items[n - 2].0);
        lemma_item_solid(items[n - 2].0, items[n - 2].1, n - 2, gap);
        assert(front.last() == items[n - 2]);
        lemma_trim_append_blank(st0.current, gap(22 + 4 * j));
        assert forall|i: int| 0 <= i < n - 1 implies trim(#[trigger] st.done[i]) == scanned_item(
            items[i].0,
            items[i].1,
            i,
            gap,
        ) by {
            assert(front[i] == items[i]);
            if i < n - 2 {
                assert(st.done[i] == st0.done[i]);
            }
        }
    }
}

/// An item reads as its key and its value.
proof fn lemma_item_element(key: Seq<char>, v: Seq<char>, j: int, gap: spec_fn(int) -> nat)
    requires
        is_element_key(key),
    ensures
        element(scanned_item(key, v, j, gap)) == Ok::<(Seq<char>, ValueView), Failure>(
            (key, ValueView::Str(unescape(resolved(v)))),
        ),
{
    lemma_element_keys_plain(key);
    let b = gap(20 + 4 * j);
    let c = gap(21 + 4 * j);
    let q = token(v);
    assert(solid(q)) by {
        assert(q[0] == '"');
        assert(q.last() == '"');
    }
    assert(scanned_item(key, v, j, gap) =~= key + blank(b) + seq![':'] + blank(c) + q);
    assert(spaced_pair(0, key, b, c, q, 0) =~= key + blank(b) + seq![':'] + blank(c) + q);
    lemma_spaced_pair(0, key, b, c, q, 0);
    assert(unwrap(q) =~= resolved(v));
}

proof fn lemma_items_solid(items: Seq<(Seq<char>, Seq<char>)>, gap: spec_fn(int) -> nat)
    requires
        items.len() >= 1,
        valid_items(items),
    ensures
        solid(spaced_items(items, gap)),
    decreases items.len(),
{
    lemma_element_keys_plain(items[0].0);
    lemma_item_solid(items[0].0, items[0].1, 0, gap);
    let n = items.len();
    if n > 1 {
        let front = items.drop_last();
        assert(valid_items(front)) by {
            assert forall|j: int| 0 <= j < front.len() implies is_element_key(
                #[trigger] front[j].0,
            ) && quoted_body(front[j].1) by {
                assert(front[j] == items[j]);
            }
        }
        lemma_items_solid(front, gap);
        let s = spaced_items(items, gap);
        assert(s[0] == spaced_items(front, gap)[0]);
        assert(s.last() == spaced_item(items.last().0, items.last().1, n - 1, gap).last());
        lemma_element_keys_plain(items.last().0);
        lemma_item_solid(items.last().0, items.last().1, n - 1, gap);
    }
}

/// Segments that trim to the scanned items read as their entries, in order.
proof fn lemma_elements_from_items(
    segs: Seq<Seq<char>>,
    items: Seq<(Seq<char>, Seq<char>)>,
    gap: spec_fn(int) -> nat,
    i: int,
)
    requires
        segs.len() == items.len(),
        0 <= i <= items.len(),
        valid_items(items),
        forall|j: int| 0 <= j < items.len() ==> trim(#[trigger] segs[j]) == scanned_item(
            items[j].0,
            items[j].1,
            j,
            gap,
        ),
    ensures
        elements_from(segs, i, items_view(items.subrange(0, i))) == Ok::<
            Seq<(Seq<char>, ValueView)>,
            Failure,
        >(items_view(items)),
    decreases items.len() - i,
{
    if i < items.len() {
        lemma_element_keys_plain(items[i].0);
        lemma_item_solid(items[i].0, items[i].1, i, gap);
        lemma_item_element(items[i].0, items[i].1, i, gap);
        assert(items_view(items.subrange(0, i)).push(
            (items[i].0, ValueView::Str(unescape(resolved(items[i].1)))),
        ) =~= items_view(items.subrange(0, i + 1)));
        lemma_elements_from_items(segs, items, gap, i + 1);
    } else {
        assert(items.subrange(0, i) =~= items);
    }
}

proof fn lemma_trim_blank(n: nat)
    ensures
        trim(blank(n)) == Seq::<char>::empty(),
{
    lemma_trim_start_blank(n, Seq::empty());
    assert(blank(n) + Seq::<char>::empty() =~= blank(n));
}

/// However many spaces stand between the tokens of a keyed block, it reads as
/// its items.
pub proof fn lemma_spaced_block(items: Seq<(Seq<char>, Seq<char>)>, gap: spec_fn(int) -> nat)
    requires
        valid_items(items),
    ensures
        elements(spaced_block(items, gap)) == Ok::<ValueView, Failure>(
            ValueView::Dict(items_view(items)),
        ),
{
    let e = spaced_block(items, gap);
    reveal_strlit("HStack:");
    assert(!has_prefix(e, "HStack:"@)) by {
        if e.len() >= 7 {
            assert(e[0] == '{');
            assert(e.subrange(0, 7)[0] == e[0]);
            assert("HStack:"@[0] == 'H');
        }
    }
    let body = spaced_items(items, gap);
    assert(unwrap(e) =~= blank(gap(14)) + body + blank(gap(15)));
    if items.len() == 0 {
        assert(blank(gap(14)) + body + blank(gap(15)) =~= blank(gap(14) + gap(15)));
        lemma_trim_blank(gap(14) + gap(15));
        let segs = segments(Seq::<char>::empty());
        assert(segs =~= seq![Seq::<char>::empty()]);
        assert(trim(Seq::<char>::empty()) =~= Seq::<char>::empty()) by {
            lemma_trim_blank(0);
            assert(blank(0) =~= Seq::<char>::empty());
        }
        assert(items_view(items) =~= Seq::empty());
        assert(elements_from(segs, 1, Seq::empty()) == Ok::<Seq<(Seq<char>, ValueView)>, Failure>(
            Seq::empty(),
        ));
        assert(trim(blank(gap(14)) + body + blank(gap(15))) =~= Seq::<char>::empty());
        assert(element_segments(e) == segs);
    } else {
        lemma_items_solid(items, gap);
        lemma_trim_blanks(gap(14), body, gap(15));
        lemma_scan_items(items, gap);
        let st = segment_scan(body);
        let segs = segments(body);
        assert(segs == st.done.push(st.current));
        assert forall|j: int| 0 <= j < items.len() implies trim(#[trigger] segs[j])
            == scanned_item(items[j].0, items[j].1, j, gap) by {
            if j < items.len() - 1 {
                assert(segs[j] == st.done[j]);
            } else {
                assert(segs[j] == st.current);
            }
        }
        lemma_elements_from_items(segs, items, gap, 0);
        assert(items_view(items.subrange(0, 0)) =~= Seq::empty());
        assert(element_segments(e) == segs);
    }
}

/// Spaces inserted around the tokens of an example do not change what it
/// reads as: for any two ways of spacing the same tokens the readings agree,
/// and both give its dimensions and items.
pub proof fn lemma_spaces_between_tokens(
    w: Seq<char>,
    h: Seq<char>,
    height_first: bool,
    items: Seq<(Seq<char>, Seq<char>)>,
    gap: spec_fn(int) -> nat,
    other: spec_fn(int) -> nat,
)
    requires
        int_value(w) is Some,
        int_value(h) is Some,
        valid_items(items),
    ensures
        parse_spec(spaced_example(w, h, height_first, spaced_block(items, gap), gap)) == Ok::<
            (ValueView, ValueView),
            Failure,
        >(
            (
                dimensions_view(int_value(w)->Some_0, int_value(h)->Some_0),
                ValueView::Dict(items_view(items)),
            ),
        ),
        parse_spec(spaced_example(w, h, height_first, spaced_block(items, gap), gap)) == parse_spec(
            spaced_example(w, h, height_first, spaced_block(items, other), other),
        ),
{
    lemma_spaced_block(items, gap);
    lemma_spaced_block(items, other);
    let e1 = spaced_block(items, gap);
    let e2 = spaced_block(items, other);
    assert(solid(e1)) by {
        assert(e1[0] == '{');
        assert(e1.last() == '}');
    }
    assert(solid(e2)) by {
        assert(e2[0] == '{');
        assert(e2.last() == '}');
    }
    lemma_spaced_example(w, h, height_first, e1, gap);
    lemma_spaced_example(w, h, height_first, e2, other);
}

/// The quoted children of a row, with spaces around each comma.
pub open spec fn spaced_children(cs: Seq<Seq<char>>, gap: spec_fn(int) -> nat) -> Seq<char>
    decreases cs.len(),
{
    if cs.len() == 0 {
        Seq::empty()
    } else if cs.len() == 1 {
        quoted(cs[0])
    } else {
        let j = cs.len() - 1;
        spaced_children(cs.drop_last(), gap) + blank(gap(22 + 4 * j)) + seq![','] + blank(
            gap(23 + 4 * j),
        ) + quoted(cs.last())
    }
}

/// A row element text `HStack:{"..", ..}` written token by token.
pub open spec fn spaced_row(cs: Seq<Seq<char>>, gap: spec_fn(int) -> nat) -> Seq<char> {
    "HStack:"@ + blank(gap(16)) + seq!['{'] + blank(gap(17)) + spaced_children(cs, gap) + blank(
        gap(18),
    ) + seq!['}']
}

/// Row children that the comma split keeps whole.
pub open spec fn plain_children(cs: Seq<Seq<char>>) -> bool {
    forall|j: int| 0 <= j < cs.len() ==> free_of(#[trigger] cs[j], ',')
}

/// The model of a row's entries: `child0`, `child1`, ... in order.
pub open spec fn children_view(cs: Seq<Seq<char>>) -> Seq<(Seq<char>, ValueView)> {
    Seq::new(cs.len(), |j: int| (child_key(j as nat), ValueView::Str(cs[j])))
}

proof fn lemma_quoted_free(c: Seq<char>)
    requires
        free_of(c, ','),
    ensures
        free_of(quoted(c), ','),
        solid(quoted(c)),
{
    let q = quoted(c);
    assert forall|k: int| 0 <= k < q.len() implies #[trigger] q[k] != ',' by {
        if 0 < k < q.len() - 1 {
            assert(q[k] == c[k - 1]);
        }
    }
    assert(q[0] == '"' && q.last() == '"');
}

/// Cutting `blank(a)` and the children at commas gives one piece per child,
/// each of which trims to the quoted child; the last piece is still open.
proof fn lemma_split_children(a: nat, cs: Seq<Seq<char>>, gap: spec_fn(int) -> nat)
    requires
        cs.len() >= 1,
        plain_children(cs),
    ensures
        ({
            let (done, cur) = split_pending(blank(a) + spaced_children(cs, gap), ',');
            &&& done.len() == cs.len() - 1
            &&& forall|j: int| 0 <= j < cs.len() - 1 ==> trim(#[trigger] done[j]) == quoted(cs[j])
            &&& trim(cur) == quoted(cs.last())
        }),
    decreases cs.len(),
{
    let n = cs.len();
    lemma_quoted_free(cs.last());
    lemma_blank_free(a, ',');
    if n == 1 {
        let t = blank(a) + quoted(cs[0]);
        assert forall|k: int| 0 <= k < t.len() implies #[trigger] t[k] != ',' by {
            if k >= a {
                assert(t[k] == quoted(cs[0])[k - a]);
            }
        }
        lemma_split_pending_free(t, ',');
        assert(blank(a) + quoted(cs[0]) + blank(0) =~= blank(a) + quoted(cs[0]));
        lemma_trim_blanks(a, quoted(cs[0]), 0);
    } else {
        let front = cs.drop_last();
        assert(plain_children(front)) by {
            assert forall|j: int| 0 <= j < front.len() implies free_of(#[trigger] front[j], ',') by {
                assert(front[j] == cs[j]);
            }
        }
        lemma_split_children(a, front, gap);
        let j = n - 1;
        let x = blank(gap(22 + 4 * j));
        let y = blank(gap(23 + 4 * j));
        let p = blank(a) + spaced_children(front, gap);
        let (done0, cur0) = split_pending(p, ',');
        lemma_blank_free(gap(22 + 4 * j), ',');
        lemma_split_pending_append(p, x, ',');
        let px = p + x;
        let pc = px + seq![','];
        assert(pc.drop_last() =~= px);
        assert(split_pending(pc, ',') == (done0.push(cur0 + x), Seq::<char>::empty()));
        let tail = y + quoted(cs.last());
        assert(free_of(tail, ',')) by {
            assert forall|k: int| 0 <= k < tail.len() implies #[trigger] tail[k] != ',' by {
                if k >= y.len() {
                    assert(tail[k] == quoted(cs.last())[k - y.len()]);
                }
            }
        }
        lemma_split_pending_append(pc, tail, ',');
        assert(blank(a) + spaced_children(cs, gap) =~= pc + tail);
        assert(Seq::<char>::empty() + tail =~= blank(gap(23 + 4 * j)) + quoted(cs.last()) + blank(
            0,
        ));
        lemma_trim_blanks(gap(23 + 4 * j), quoted(cs.last()), 0);
        lemma_quoted_free(cs[n - 2]);
        assert(front.last() == cs[n - 2]);
        lemma_trim_append_blank(cur0, gap(22 + 4 * j));
        let done = done0.push(cur0 + x);
        assert forall|i: int| 0 <= i < n - 1 implies trim(#[trigger] done[i]) == quoted(cs[i]) by {
            assert(front[i] == cs[i]);
            if i < n - 2 {
                assert(done[i] == done0[i]);
            }
        }
    }
}

/// Pieces that trim to the quoted children read as the row's entries.
proof fn lemma_row_from_children(parts: Seq<Seq<char>>, cs: Seq<Seq<char>>, i: int)
    requires
        parts.len() == cs.len(),
        0 <= i <= cs.len(),
        plain_children(cs),
        forall|j: int| 0 <= j < cs.len() ==> trim(#[trigger] parts[j]) == quoted(cs[j]),
    ensures
        row_from(parts, i, children_view(cs.subrange(0, i))) == Ok::<
            Seq<(Seq<char>, ValueView)>,
            Failure,
        >(children_view(cs)),
    decreases cs.len() - i,
{
    if i < cs.len() {
        lemma_quoted_free(cs[i]);
        assert(unwrap(quoted(cs[i])) =~= cs[i]);
        assert(children_view(cs.subrange(0, i)).push(
            (child_key(children_view(cs.subrange(0, i)).len()), ValueView::Str(cs[i])),
        ) =~= children_view(cs.subrange(0, i + 1)));
        lemma_row_from_children(parts, cs, i + 1);
    } else {
        assert(cs.subrange(0, i) =~= cs);
    }
}

/// However many spaces stand between the tokens of a row, it reads as its
/// children.
pub proof fn lemma_spaced_row(cs: Seq<Seq<char>>, gap: spec_fn(int) -> nat)
    requires
        plain_children(cs),
    ensures
        elements(spaced_row(cs, gap)) == Ok::<ValueView, Failure>(
            ValueView::Dict(seq![("HStack"@, ValueView::Dict(children_view(cs)))]),
        ),
{
    let e = spaced_row(cs, gap);
    let pre = "HStack:"@;
    let body = spaced_children(cs, gap);
    let inner = blank(gap(17)) + body + blank(gap(18));
    let braced = seq!['{'] + inner + seq!['}'];
    assert(e =~= pre + (blank(gap(16)) + braced + blank(0)));
    assert(e.subrange(0, pre.len() as int) =~= pre);
    assert(e.subrange(pre.len() as int, e.len() as int) =~= blank(gap(16)) + braced + blank(0));
    assert(solid(braced)) by {
        assert(braced[0] == '{' && braced.last() == '}');
    }
    lemma_trim_blanks(gap(16), braced, 0);
    assert(unwrap(braced) =~= inner);
    if cs.len() == 0 {
        assert(inner =~= blank(gap(17) + gap(18)));
        lemma_blank_free(gap(17) + gap(18), ',');
        lemma_split_pending_free(inner, ',');
        let parts = split(inner, ',');
        assert(parts =~= seq![inner]);
        lemma_trim_blank(gap(17) + gap(18));
        assert(children_view(cs) =~= Seq::empty());
        assert(row_from(parts, 1, Seq::empty()) == Ok::<Seq<(Seq<char>, ValueView)>, Failure>(
            Seq::empty(),
        ));
    } else {
        lemma_split_children(gap(17), cs, gap);
        let p = blank(gap(17)) + body;
        let (done, cur) = split_pending(p, ',');
        lemma_blank_free(gap(18), ',');
        lemma_split_pending_append(p, blank(gap(18)), ',');
        let parts = split(inner, ',');
        assert(parts == done.push(cur + blank(gap(18))));
        lemma_quoted_free(cs.last());
        lemma_trim_append_blank(cur, gap(18));
        assert forall|j: int| 0 <= j < cs.len() implies trim(#[trigger] parts[j]) == quoted(cs[j]) by {
            if j < cs.len() - 1 {
                assert(parts[j] == done[j]);
            }
        }
        lemma_row_from_children(parts, cs, 0);
        assert(children_view(cs.subrange(0, 0)) =~= Seq::empty());
    }
}

/// Spaces inserted around the tokens of a row example, `HStack:` being one
/// token, do not change what it reads as.
pub proof fn lemma_spaces_between_row_tokens(
    w: Seq<char>,
    h: Seq<char>,
    height_first: bool,
    cs: Seq<Seq<char>>,
    gap: spec_fn(int) -> nat,
    other: spec_fn(int) -> nat,
)
    requires
        int_value(w) is Some,
        int_value(h) is Some,
        plain_children(cs),
    ensures
        parse_spec(spaced_example(w, h, height_first, spaced_row(cs, gap), gap)) == Ok::<
            (ValueView, ValueView),
            Failure,
        >(
            (
                dimensions_view(int_value(w)->Some_0, int_value(h)->Some_0),
                ValueView::Dict(seq![("HStack"@, ValueView::Dict(children_view(cs)))]),
            ),
        ),
        parse_spec(spaced_example(w, h, height_first, spaced_row(cs, gap), gap)) == parse_spec(
            spaced_example(w, h, height_first, spaced_row(cs, other), other),
        ),
{
    lemma_spaced_row(cs, gap);
    lemma_spaced_row(cs, other);
    reveal_strlit("HStack:");
    let e1 = spaced_row(cs, gap);
    let e2 = spaced_row(cs, other);
    assert(solid(e1)) by {
        assert(e1[0] == 'H');
        assert(e1.last() == '}');
    }
    assert(solid(e2)) by {
        assert(e2[0] == 'H');
        assert(e2.last() == '}');
    }
    lemma_spaced_example(w, h, height_first, e1, gap);
    lemma_spaced_example(w, h, height_first, e2, other);
}

} // verus!
