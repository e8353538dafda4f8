//! What holds of the attribute's grammar as a whole.

use vstd::prelude::*;
use vstd::utf8::encode_utf8;
use vstd::utf8::is_ascii_chars;
use vstd::utf8::is_ascii_chars_encode_utf8;
use crate::number::ends_literal;
use crate::number::is_digit;
use crate::number::is_literal_of;
use crate::number::is_sign;
use crate::number::lemma_literal_of_is_read;
use crate::number::lemma_number_at_end;
use crate::number::lemma_number_at_first;
use crate::number::lemma_read_is_literal_of;
use crate::number::lemma_number_at_prefix;
use crate::number::lemma_number_at_suffix;
use crate::number::lemma_number_at_wf;
use crate::number::number_at;
use crate::number::shifted;
use crate::number::Decimal;
use crate::trim::is_white_space;
use crate::trim::leading_end;
use crate::trim::lemma_leading_run;
use crate::trim::lemma_trailing_run;
use crate::trim::lemma_trailing_start_bound;
use crate::trim::trailing_start;
use crate::trim::trimmed;
use crate::error::AttributeError;
use crate::viewbox::four_numbers;
use crate::viewbox::is_reading_of;
use crate::viewbox::RsvgViewBox;
use crate::viewbox::trimmed_bytes;
use crate::viewbox::is_space;
use crate::viewbox::lemma_separator_end_prefix;
use crate::viewbox::lemma_separator_end_suffix;
use crate::viewbox::lemma_separator_run;
use crate::viewbox::lemma_spaces_end_prefix;
use crate::viewbox::lemma_spaces_end_suffix;
use crate::viewbox::lemma_spaces_end_through;
use crate::viewbox::lemma_spaces_to_the_end;
use crate::viewbox::lemma_spaces_run;
use crate::viewbox::separator_end;
use crate::viewbox::spaces_end;
use crate::viewbox::Quad;
use crate::viewbox::COMMA;

verus! {

/// All of `t` is read as one literal, and `d` is the number read.
spec fn read_as_literal(t: Seq<u8>, d: Decimal) -> bool {
    number_at(t, 0) == Some((d, t.len() as int))
}

/// `g` is whitespace and nothing else; it may be empty.
pub open spec fn is_blank(g: Seq<u8>) -> bool {
    forall|k: int| 0 <= k < g.len() ==> is_space(#[trigger] g[k])
}

/// `g` is whitespace with at most one comma in it; it may be empty.
pub open spec fn is_gap(g: Seq<u8>) -> bool {
    &&& forall|k: int| 0 <= k < g.len() ==> is_space(#[trigger] g[k]) || g[k] == COMMA
    &&& forall|a: int, b: int|
        0 <= a < g.len() && 0 <= b < g.len() && #[trigger] g[a] == COMMA && #[trigger] g[b]
            == COMMA ==> a == b
}

/// `g` may stand between a literal and the literal `t`: it is whitespace,
/// one comma, or one comma with whitespace on either side or on both. It may
/// also be empty where `t` starts with a sign, which no literal goes on with.
pub open spec fn is_separator(g: Seq<u8>, t: Seq<u8>) -> bool {
    is_gap(g) && (g.len() > 0 || (t.len() > 0 && is_sign(t[0])))
}

/// A string cut into the nine pieces of the attribute's shape: four
/// literals, what stands between them, and what stands at the two ends.
pub ghost struct Pieces {
    pub before: Seq<u8>,
    pub x: Seq<u8>,
    pub after_x: Seq<u8>,
    pub y: Seq<u8>,
    pub after_y: Seq<u8>,
    pub width: Seq<u8>,
    pub after_width: Seq<u8>,
    pub height: Seq<u8>,
    pub after_height: Seq<u8>,
}

impl Pieces {
    /// The string that the pieces make, one behind the other.
    pub open spec fn joined(self) -> Seq<u8> {
        self.before + self.x + self.after_x + self.y + self.after_y + self.width
            + self.after_width + self.height + self.after_height
    }

    /// The pieces have the attribute's shape, `x [,] y [,] w [,] h`, and the
    /// four literals write the numbers of `q`: whitespace at the ends,
    /// separators between the literals.
    pub open spec fn fits(self, q: Quad) -> bool {
        &&& is_blank(self.before)
        &&& is_literal_of(self.x, q.x)
        &&& is_separator(self.after_x, self.y)
        &&& is_literal_of(self.y, q.y)
        &&& is_separator(self.after_y, self.width)
        &&& is_literal_of(self.width, q.width)
        &&& is_separator(self.after_width, self.height)
        &&& is_literal_of(self.height, q.height)
        &&& is_blank(self.after_height)
    }
}

/// `s` has the attribute's shape and holds the numbers of `q`: it can be cut
/// into pieces that fit.
pub open spec fn has_shape(s: Seq<u8>, q: Quad) -> bool {
    exists|p: Pieces| #[trigger] p.fits(q) && p.joined() == s
}

/// Skipping whitespace from the start of `g` takes all of it.
spec fn skipped_as_blank(g: Seq<u8>) -> bool {
    spaces_end(g, 0) == g.len()
}

/// Skipping a separator from the start of `g` takes all of it, and `g` is
/// not empty unless `t` starts with a sign.
spec fn skipped_as_separator(g: Seq<u8>, t: Seq<u8>) -> bool {
    separator_end(g, 0) == g.len() && (g.len() > 0 || (t.len() > 0 && is_sign(t[0])))
}

/// Skipping whitespace from the start of a blank string takes all of it.
pub proof fn lemma_blank_is_skipped(g: Seq<u8>)
    requires
        is_blank(g),
    ensures
        spaces_end(g, 0) == g.len(),
        separator_end(g, 0) == g.len(),
{
    lemma_spaces_to_the_end(g, 0);
}

/// Skipping a separator from the start of whitespace with at most one comma
/// takes all of it.
pub proof fn lemma_gap_is_skipped(g: Seq<u8>)
    requires
        is_gap(g),
    ensures
        separator_end(g, 0) == g.len(),
{
    lemma_spaces_run(g, 0);
    let a = spaces_end(g, 0);
    if a < g.len() {
        assert(g[a] == COMMA);
        assert forall|k: int| a + 1 <= k < g.len() implies is_space(#[trigger] g[k]) by {
            if g[k] == COMMA {
                assert(k == a);
            }
        }
        lemma_spaces_to_the_end(g, a + 1);
    }
}

/// The string with no bytes is malformed.
pub proof fn lemma_empty_is_malformed()
    ensures
        four_numbers(Seq::<u8>::empty()) is None,
{
}

/// The text with no characters is malformed, and so is a text of whitespace
/// only.
pub proof fn lemma_blank_text_is_malformed(s: Seq<char>)
    requires
        leading_end(s, 0) >= s.len(),
    ensures
        four_numbers(trimmed_bytes(s)) is None,
{
    assert(trimmed(s) =~= Seq::<char>::empty());
}

/// A string whose first byte after the leading whitespace is neither a digit
/// nor a sign is malformed; so is one that holds whitespace only.
pub proof fn lemma_garbage_is_malformed(s: Seq<u8>)
    requires
        ({
            let a = spaces_end(s, 0);
            a >= s.len() || !(is_digit(s[a]) || is_sign(s[a]))
        }),
    ensures
        four_numbers(s) is None,
{
    lemma_spaces_run(s, 0);
}

/// Behind `pre` come `g`, the literal `t` and `post`: reading past `g` from
/// the end of `pre` finds that literal, as long as `post` cannot continue it.
proof fn lemma_read_next(pre: Seq<u8>, g: Seq<u8>, t: Seq<u8>, d: Decimal, post: Seq<u8>)
    requires
        separator_end(g, 0) == g.len(),
        read_as_literal(t, d),
        post.len() == 0 || ends_literal(post[0]) || is_sign(post[0]),
    ensures
        skipped_as_blank(g) ==> spaces_end(pre + g + t + post, pre.len() as int) == pre.len() + g.len(),
        separator_end(pre + g + t + post, pre.len() as int) == pre.len() + g.len(),
        number_at(pre + g + t + post, (pre.len() + g.len()) as int) == Some(
            (d, (pre.len() + g.len() + t.len()) as int),
        ),
{
    let s = pre + g + t + post;
    lemma_number_at_first(t, 0);
    let rest = t + post;
    assert(rest[0] == t[0]);
    assert(s =~= (pre + g) + rest);
    lemma_separator_end_prefix(pre + g, rest, pre.len() as int);
    lemma_separator_end_suffix(pre, g, 0);
    if skipped_as_blank(g) {
        lemma_spaces_end_prefix(pre + g, rest, pre.len() as int);
        lemma_spaces_end_suffix(pre, g, 0);
    }
    lemma_number_at_suffix(pre + g, t, 0);
    lemma_number_at_prefix(pre + g + t, post, (pre.len() + g.len()) as int);
}

/// A separator and the literal behind it start with a byte that no literal
/// goes on with.
proof fn lemma_separator_first(g: Seq<u8>, t: Seq<u8>)
    requires
        skipped_as_separator(g, t),
    ensures
        (g + t).len() > 0,
        ends_literal((g + t)[0]) || is_sign((g + t)[0]),
{
}

/// Putting `c` behind `a + b` is putting `b + c` behind `a`.
proof fn lemma_regroup(a: Seq<u8>, b: Seq<u8>, c: Seq<u8>)
    ensures
        a + (b + c) == a + b + c,
{
    assert(a + (b + c) =~= a + b + c);
}

/// Where each of four literals is found in the string that joins them.
proof fn lemma_joined_literals_positions(
    g0: Seq<u8>,
    t1: Seq<u8>,
    g1: Seq<u8>,
    t2: Seq<u8>,
    g2: Seq<u8>,
    t3: Seq<u8>,
    g3: Seq<u8>,
    t4: Seq<u8>,
    g4: Seq<u8>,
    q: Quad,
)
    requires
        skipped_as_blank(g0),
        read_as_literal(t1, q.x),
        skipped_as_separator(g1, t2),
        read_as_literal(t2, q.y),
        skipped_as_separator(g2, t3),
        read_as_literal(t3, q.width),
        skipped_as_separator(g3, t4),
        read_as_literal(t4, q.height),
        skipped_as_blank(g4),
    ensures
        ({
            let s = g0 + t1 + g1 + t2 + g2 + t3 + g3 + t4 + g4;
            let i = (g0.len() + t1.len()) as int;
            let j = i + g1.len() + t2.len();
            let k = j + g2.len() + t3.len();
            let l = k + g3.len() + t4.len();
            &&& spaces_end(s, 0) == g0.len()
            &&& number_at(s, g0.len() as int) == Some((q.x, i))
            &&& separator_end(s, i) == i + g1.len()
            &&& number_at(s, i + g1.len()) == Some((q.y, j))
            &&& separator_end(s, j) == j + g2.len()
            &&& number_at(s, j + g2.len()) == Some((q.width, k))
            &&& separator_end(s, k) == k + g3.len()
            &&& number_at(s, k + g3.len()) == Some((q.height, l))
            &&& spaces_end(s, l) == s.len()
        }),
{
    let s = g0 + t1 + g1 + t2 + g2 + t3 + g3 + t4 + g4;
    lemma_separator_first(g1, t2);
    lemma_separator_first(g2, t3);
    lemma_separator_first(g3, t4);
    lemma_spaces_run(g0, 0);
    lemma_spaces_run(g4, 0);

    let e = Seq::<u8>::empty();
    let p1 = g1 + t2 + g2 + t3 + g3 + t4 + g4;
    let x1 = e + g0 + t1;
    assert(s == x1 + p1) by {
        assert(e + g0 =~= g0);
        lemma_regroup(x1, g1 + t2 + g2 + t3 + g3 + t4, g4);
        lemma_regroup(x1, g1 + t2 + g2 + t3 + g3, t4);
        lemma_regroup(x1, g1 + t2 + g2 + t3, g3);
        lemma_regroup(x1, g1 + t2 + g2, t3);
        lemma_regroup(x1, g1 + t2, g2);
        lemma_regroup(x1, g1, t2);
    }
    assert(p1[0] == (g1 + t2)[0]);
    assert(e.len() == 0);
    lemma_read_next(e, g0, t1, q.x, p1);

    let p2 = g2 + t3 + g3 + t4 + g4;
    let x2 = (g0 + t1) + g1 + t2;
    assert(s == x2 + p2) by {
        lemma_regroup(x2, g2 + t3 + g3 + t4, g4);
        lemma_regroup(x2, g2 + t3 + g3, t4);
        lemma_regroup(x2, g2 + t3, g3);
        lemma_regroup(x2, g2, t3);
    }
    assert(p2[0] == (g2 + t3)[0]);
    lemma_read_next(g0 + t1, g1, t2, q.y, p2);

    let p3 = g3 + t4 + g4;
    let x3 = (g0 + t1 + g1 + t2) + g2 + t3;
    assert(s == x3 + p3) by {
        lemma_regroup(x3, g3 + t4, g4);
        lemma_regroup(x3, g3, t4);
    }
    assert(p3[0] == (g3 + t4)[0]);
    lemma_read_next(g0 + t1 + g1 + t2, g2, t3, q.width, p3);

    lemma_read_next(g0 + t1 + g1 + t2 + g2 + t3, g3, t4, q.height, g4);
    lemma_spaces_end_suffix(g0 + t1 + g1 + t2 + g2 + t3 + g3 + t4, g4, 0);
}

/// Four literals, parted by separators and with whitespace allowed at both
/// ends, make a string that is read as the four numbers that the literals
/// write, in their order.
pub proof fn lemma_joined_literals_are_read_back(p: Pieces, q: Quad)
    requires
        p.fits(q),
    ensures
        four_numbers(p.joined()) == Some(q),
{
    lemma_blank_is_skipped(p.before);
    lemma_gap_is_skipped(p.after_x);
    lemma_gap_is_skipped(p.after_y);
    lemma_gap_is_skipped(p.after_width);
    lemma_blank_is_skipped(p.after_height);
    lemma_literal_of_is_read(p.x, q.x);
    lemma_literal_of_is_read(p.y, q.y);
    lemma_literal_of_is_read(p.width, q.width);
    lemma_literal_of_is_read(p.height, q.height);
    lemma_joined_literals_positions(
        p.before,
        p.x,
        p.after_x,
        p.y,
        p.after_y,
        p.width,
        p.after_width,
        p.height,
        p.after_height,
        q,
    );
}

/// Every string of the attribute's shape is read, and as the numbers that it
/// holds.
pub proof fn lemma_shape_is_read(s: Seq<u8>, q: Quad)
    requires
        has_shape(s, q),
    ensures
        four_numbers(s) == Some(q),
{
    let p = choose|p: Pieces| #[trigger] p.fits(q) && p.joined() == s;
    lemma_joined_literals_are_read_back(p, q);
}

/// The whitespace skipped from `i` on is whitespace and nothing else.
proof fn lemma_skipped_is_blank(s: Seq<u8>, i: int)
    requires
        0 <= i <= s.len(),
    ensures
        i <= spaces_end(s, i) <= s.len(),
        is_blank(s.subrange(i, spaces_end(s, i))),
    decreases s.len() - i,
{
    if i < s.len() && is_space(s[i]) {
        lemma_skipped_is_blank(s, i + 1);
        let e = spaces_end(s, i);
        assert forall|k: int| 0 <= k < e - i implies is_space(#[trigger] s.subrange(i, e)[k]) by {
            if k > 0 {
                assert(s.subrange(i, e)[k] == s.subrange(i + 1, e)[k - 1]);
            }
        }
    }
}

/// The separator skipped from `i` on is whitespace with at most one comma.
proof fn lemma_skipped_is_gap(s: Seq<u8>, i: int)
    requires
        0 <= i <= s.len(),
    ensures
        i <= separator_end(s, i) <= s.len(),
        is_gap(s.subrange(i, separator_end(s, i))),
{
    lemma_skipped_is_blank(s, i);
    let a = spaces_end(s, i);
    let e = separator_end(s, i);
    let g = s.subrange(i, e);
    if a < s.len() && s[a] == COMMA {
        lemma_skipped_is_blank(s, a + 1);
        assert forall|k: int| 0 <= k < g.len() && k != a - i implies is_space(#[trigger] g[k]) by {
            if k < a - i {
                assert(g[k] == s.subrange(i, a)[k]);
            } else {
                assert(g[k] == s.subrange(a + 1, e)[k - (a + 1 - i)]);
            }
        }
        assert(!is_space(COMMA));
    }
}

/// What stands between two literals that are read one after the other is a
/// separator.
proof fn lemma_skipped_is_separator(s: Seq<u8>, i: int, from: int)
    requires
        0 <= from <= s.len(),
        number_at(s, from) is Some,
        i == number_at(s, from).unwrap().1,
        number_at(s, separator_end(s, i)) is Some,
    ensures
        ({
            let b = separator_end(s, i);
            let j = number_at(s, b).unwrap().1;
            &&& i <= b < j <= s.len()
            &&& is_separator(s.subrange(i, b), s.subrange(b, j))
            &&& is_literal_of(s.subrange(b, j), number_at(s, b).unwrap().0)
        }),
{
    lemma_number_at_end(s, from);
    lemma_skipped_is_gap(s, i);
    let b = separator_end(s, i);
    lemma_number_at_end(s, b);
    lemma_number_at_first(s, b);
    lemma_read_is_literal_of(s, b);
    let j = number_at(s, b).unwrap().1;
    assert(s.subrange(b, j)[0] == s[b]);
}

/// Every string that is read has the attribute's shape, and holds the
/// numbers read from it.
pub proof fn lemma_read_has_shape(s: Seq<u8>)
    requires
        four_numbers(s) is Some,
    ensures
        has_shape(s, four_numbers(s).unwrap()),
{
    let q = four_numbers(s).unwrap();
    lemma_skipped_is_blank(s, 0);
    let a = spaces_end(s, 0);
    lemma_number_at_end(s, a);
    lemma_read_is_literal_of(s, a);
    let i = number_at(s, a).unwrap().1;
    lemma_skipped_is_separator(s, i, a);
    let b = separator_end(s, i);
    let j = number_at(s, b).unwrap().1;
    lemma_skipped_is_separator(s, j, b);
    let c = separator_end(s, j);
    let k = number_at(s, c).unwrap().1;
    lemma_skipped_is_separator(s, k, c);
    let d = separator_end(s, k);
    let l = number_at(s, d).unwrap().1;
    lemma_skipped_is_blank(s, l);
    let p = Pieces {
        before: s.subrange(0, a),
        x: s.subrange(a, i),
        after_x: s.subrange(i, b),
        y: s.subrange(b, j),
        after_y: s.subrange(j, c),
        width: s.subrange(c, k),
        after_width: s.subrange(k, d),
        height: s.subrange(d, l),
        after_height: s.subrange(l, s.len() as int),
    };
    assert(p.joined() =~= s);
    assert(p.fits(q));
}

/// Reading a string of the attribute's shape succeeds, with an active view
/// box of the numbers that the string holds, unless width or height is
/// negative; then it fails with an error about the value, never with a
/// syntax error.
pub proof fn lemma_reading_of_shape(r: Result<RsvgViewBox, AttributeError>, s: Seq<u8>, q: Quad)
    requires
        is_reading_of(r, s),
        has_shape(s, q),
    ensures
        q.has_negative_size() ==> r is Err && r->Err_0.is_value(),
        !q.has_negative_size() ==> r is Ok && r->Ok_0.active && r->Ok_0.rect@ == q,
{
    lemma_shape_is_read(s, q);
}

/// Reading a string that has not the attribute's shape fails with a syntax
/// error.
pub proof fn lemma_reading_without_shape(r: Result<RsvgViewBox, AttributeError>, s: Seq<u8>)
    requires
        is_reading_of(r, s),
        forall|q: Quad| !has_shape(s, q),
    ensures
        r is Err && r->Err_0.is_parse(),
{
    if four_numbers(s) is Some {
        lemma_read_has_shape(s);
        assert(has_shape(s, four_numbers(s).unwrap()));
    }
}

/// What is read at `i` ends inside the string.
spec fn ends_inside(s: Seq<u8>, i: int) -> bool {
    match number_at(s, i) {
        Some((_, j)) => 0 <= j <= s.len(),
        None => true,
    }
}

/// With `w` before the string `m`, what is read past a separator, or past
/// whitespace, is what is read in `m` alone, moved by the length of `w`.
proof fn lemma_read_behind_blank(w: Seq<u8>, m: Seq<u8>, i: int)
    requires
        0 <= i <= m.len(),
    ensures
        number_at(w + m, separator_end(w + m, w.len() + i)) == shifted(
            number_at(m, separator_end(m, i)),
            w.len() as int,
        ),
        number_at(w + m, w.len() + spaces_end(m, i)) == shifted(
            number_at(m, spaces_end(m, i)),
            w.len() as int,
        ),
        spaces_end(w + m, w.len() + i) == w.len() + spaces_end(m, i),
        ends_inside(m, separator_end(m, i)),
        ends_inside(m, spaces_end(m, i)),
{
    lemma_separator_run(m, i);
    lemma_separator_end_suffix(w, m, i);
    lemma_number_at_suffix(w, m, separator_end(m, i));
    lemma_number_at_wf(m, separator_end(m, i));
    lemma_spaces_run(m, i);
    lemma_spaces_end_suffix(w, m, i);
    lemma_number_at_suffix(w, m, spaces_end(m, i));
    lemma_number_at_wf(m, spaces_end(m, i));
}

/// Whitespace before a string changes nothing in what is read from it.
pub proof fn lemma_leading_blank_is_dropped(w: Seq<u8>, m: Seq<u8>)
    requires
        is_blank(w),
    ensures
        four_numbers(w + m) == four_numbers(m),
{
    lemma_blank_is_skipped(w);
    lemma_leading_skipped_is_dropped(w, m);
}

/// What is skipped as whitespace before a string changes nothing in what is
/// read from it.
proof fn lemma_leading_skipped_is_dropped(w: Seq<u8>, m: Seq<u8>)
    requires
        skipped_as_blank(w),
    ensures
        four_numbers(w + m) == four_numbers(m),
{
    let s = w + m;
    let n = w.len() as int;
    lemma_spaces_end_through(w, m, 0);
    lemma_read_behind_blank(w, m, 0);
    let a = spaces_end(m, 0);
    assert(spaces_end(s, 0) == n + a);
    if number_at(m, a) is Some {
        let i = number_at(m, a).unwrap().1;
        lemma_read_behind_blank(w, m, i);
        if number_at(m, separator_end(m, i)) is Some {
            let j = number_at(m, separator_end(m, i)).unwrap().1;
            lemma_read_behind_blank(w, m, j);
            if number_at(m, separator_end(m, j)) is Some {
                let k = number_at(m, separator_end(m, j)).unwrap().1;
                lemma_read_behind_blank(w, m, k);
                if number_at(m, separator_end(m, k)) is Some {
                    let l = number_at(m, separator_end(m, k)).unwrap().1;
                    lemma_read_behind_blank(w, m, l);
                }
            }
        }
    }
}

/// With whitespace `w` behind the string `m`, what is read past a separator,
/// or past whitespace, is what is read in `m` alone; and the whitespace from
/// `i` on reaches the end of the one exactly when it reaches the end of the
/// other.
proof fn lemma_read_before_blank(m: Seq<u8>, w: Seq<u8>, i: int)
    requires
        0 <= i <= m.len(),
        skipped_as_blank(w),
    ensures
        number_at(m + w, separator_end(m + w, i)) == number_at(m, separator_end(m, i)),
        number_at(m + w, spaces_end(m + w, i)) == number_at(m, spaces_end(m, i)),
        spaces_end(m + w, i) == (m + w).len() <==> spaces_end(m, i) == m.len(),
        ends_inside(m, separator_end(m, i)),
        ends_inside(m, spaces_end(m, i)),
{
    let s = m + w;
    lemma_spaces_run(w, 0);
    lemma_spaces_run(m, i);
    lemma_spaces_run(s, i);
    lemma_separator_run(m, i);
    lemma_number_at_wf(m, separator_end(m, i));
    lemma_number_at_wf(m, spaces_end(m, i));
    let a = spaces_end(m, i);
    if a < m.len() {
        lemma_spaces_end_prefix(m, w, i);
        lemma_number_at_prefix(m, w, a);
        assert(s[a] == m[a]);
        if m[a] == COMMA {
            lemma_spaces_run(m, a + 1);
            let b = spaces_end(m, a + 1);
            if b < m.len() {
                lemma_spaces_end_prefix(m, w, a + 1);
                lemma_number_at_prefix(m, w, b);
            } else {
                lemma_spaces_end_through(m, w, a + 1);
            }
        }
    } else {
        lemma_spaces_end_through(m, w, i);
    }
}

/// Whitespace behind a string changes nothing in what is read from it.
pub proof fn lemma_trailing_blank_is_dropped(m: Seq<u8>, w: Seq<u8>)
    requires
        is_blank(w),
    ensures
        four_numbers(m + w) == four_numbers(m),
{
    lemma_blank_is_skipped(w);
    lemma_trailing_skipped_is_dropped(m, w);
}

/// What is skipped as whitespace behind a string changes nothing in what is
/// read from it.
proof fn lemma_trailing_skipped_is_dropped(m: Seq<u8>, w: Seq<u8>)
    requires
        skipped_as_blank(w),
    ensures
        four_numbers(m + w) == four_numbers(m),
{
    lemma_read_before_blank(m, w, 0);
    let a = spaces_end(m, 0);
    if number_at(m, a) is Some {
        let i = number_at(m, a).unwrap().1;
        lemma_read_before_blank(m, w, i);
        if number_at(m, separator_end(m, i)) is Some {
            let j = number_at(m, separator_end(m, i)).unwrap().1;
            lemma_read_before_blank(m, w, j);
            if number_at(m, separator_end(m, j)) is Some {
                let k = number_at(m, separator_end(m, j)).unwrap().1;
                lemma_read_before_blank(m, w, k);
                if number_at(m, separator_end(m, k)) is Some {
                    let l = number_at(m, separator_end(m, k)).unwrap().1;
                    lemma_read_before_blank(m, w, l);
                }
            }
        }
    }
}

/// Whitespace at the two ends of a string is tolerated: with it the string
/// holds the numbers, or is malformed, as it is without it.
pub proof fn lemma_blank_ends_are_dropped(w0: Seq<u8>, m: Seq<u8>, w1: Seq<u8>)
    requires
        is_blank(w0),
        is_blank(w1),
    ensures
        four_numbers(w0 + m + w1) == four_numbers(m),
{
    lemma_trailing_blank_is_dropped(w0 + m, w1);
    lemma_leading_blank_is_dropped(w0, m);
}

/// The bytes of an ASCII text that is whitespace only are whitespace only.
proof fn lemma_ascii_blank(s: Seq<char>)
    requires
        is_ascii_chars(s),
        forall|k: int| 0 <= k < s.len() ==> is_white_space(#[trigger] s[k]),
    ensures
        is_blank(encode_utf8(s)),
{
    is_ascii_chars_encode_utf8(s);
    let b = encode_utf8(s);
    assert forall|k: int| 0 <= k < b.len() implies is_space(#[trigger] b[k]) by {
        assert(is_white_space(s[k]));
        assert(b[k] == s[k] as u8);
    }
}

/// In a text of ASCII characters the whitespace at the ends need not be
/// dropped before reading: the text reads as its bytes do.
pub proof fn lemma_ascii_text_reads_as_its_bytes(s: Seq<char>)
    requires
        is_ascii_chars(s),
    ensures
        four_numbers(trimmed_bytes(s)) == four_numbers(encode_utf8(s)),
{
    let n = s.len() as int;
    let i = leading_end(s, 0);
    lemma_leading_run(s, 0);
    if i >= n {
        assert(trimmed(s) =~= Seq::<char>::empty());
        lemma_ascii_blank(s);
        lemma_blank_is_skipped(encode_utf8(s));
        lemma_garbage_is_malformed(encode_utf8(s));
    } else {
        let j = trailing_start(s, n);
        lemma_trailing_start_bound(s, i, n);
        lemma_trailing_run(s, n);
        let a = s.subrange(0, i);
        let m = s.subrange(i, j);
        let b = s.subrange(j, n);
        assert(trimmed(s) == m);
        lemma_ascii_blank(a);
        lemma_ascii_blank(b);
        is_ascii_chars_encode_utf8(s);
        is_ascii_chars_encode_utf8(a);
        is_ascii_chars_encode_utf8(m);
        is_ascii_chars_encode_utf8(b);
        let ea = encode_utf8(a);
        let em = encode_utf8(m);
        let eb = encode_utf8(b);
        let es = encode_utf8(s);
        assert(es =~= ea + em + eb) by {
            assert forall|k: int| 0 <= k < n implies es[k] == (ea + em + eb)[k] by {
                assert(es[k] == s[k] as u8);
                if k < i {
                    assert(ea[k] == a[k] as u8);
                } else if k < j {
                    assert(em[k - i] == m[k - i] as u8);
                } else {
                    assert(eb[k - j] == b[k - j] as u8);
                }
            }
        }
        lemma_blank_ends_are_dropped(ea, em, eb);
    }
}

/// A string that has the attribute's shape loses it when more is put behind
/// it: whitespace or a comma, and then anything that is not whitespace, such
/// as a fifth number.
pub proof fn lemma_trailing_token_is_malformed(s: Seq<u8>, extra: Seq<u8>)
    requires
        four_numbers(s) is Some,
        extra.len() > 0,
        is_space(extra[0]) || extra[0] == COMMA,
        exists|k: int| 0 <= k < extra.len() && !is_space(#[trigger] extra[k]),
    ensures
        four_numbers(s + extra) is None,
{
    let z = s + extra;
    lemma_spaces_run(s, 0);
    let a = spaces_end(s, 0);
    lemma_number_at_wf(s, a);
    lemma_spaces_end_prefix(s, extra, 0);
    lemma_number_at_prefix(s, extra, a);
    let i = number_at(s, a).unwrap().1;

    lemma_separator_run(s, i);
    let b = separator_end(s, i);
    lemma_number_at_wf(s, b);
    lemma_separator_end_prefix(s, extra, i);
    lemma_number_at_prefix(s, extra, b);
    let j = number_at(s, b).unwrap().1;

    lemma_separator_run(s, j);
    let c = separator_end(s, j);
    lemma_number_at_wf(s, c);
    lemma_separator_end_prefix(s, extra, j);
    lemma_number_at_prefix(s, extra, c);
    let k = number_at(s, c).unwrap().1;

    lemma_separator_run(s, k);
    let d = separator_end(s, k);
    lemma_number_at_wf(s, d);
    lemma_separator_end_prefix(s, extra, k);
    lemma_number_at_prefix(s, extra, d);
    let l = number_at(s, d).unwrap().1;

    let w = choose|w: int| 0 <= w < extra.len() && !is_space(#[trigger] extra[w]);
    assert(z[s.len() + w] == extra[w]);
    lemma_spaces_run(z, l);
}

} // verus!
