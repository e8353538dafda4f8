//! The `viewBox` attribute: `x [,] y [,] w [,] h`.
//!
//! Four decimal literals, each two parted by whitespace, by one comma, or by
//! both; whitespace may stand before the first and after the last. Width and
//! height must not be negative.

use std::str::FromStr;
use vstd::prelude::*;
use vstd::utf8::encode_utf8;
use crate::error::AttributeError;
use crate::error::ParseError;
use crate::number::number_at;
use crate::number::read_number;
use crate::number::Decimal;
use crate::number::Number;
use crate::trim::trim;
use crate::trim::trimmed;

verus! {

/// `,`
pub const COMMA: u8 = 44;

/// Space.
pub const SPACE: u8 = 32;

/// Horizontal tab, the first of the five control characters that count as
/// whitespace.
pub const TAB: u8 = 9;

/// Carriage return, the last of them.
pub const CARRIAGE_RETURN: u8 = 13;

/// ASCII whitespace: space, tab, line feed, vertical tab, form feed and
/// carriage return.
pub open spec fn is_space(b: u8) -> bool {
    b == SPACE || TAB <= b <= CARRIAGE_RETURN
}

/// The position just past the longest run of whitespace that starts at `i`.
pub open spec fn spaces_end(s: Seq<u8>, i: int) -> int
    decreases s.len() - i,
{
    if 0 <= i < s.len() && is_space(s[i]) {
        spaces_end(s, i + 1)
    } else {
        i
    }
}

/// The position just past what may part two numbers: optional whitespace, at
/// most one comma, optional whitespace. All three may be missing.
pub open spec fn separator_end(s: Seq<u8>, i: int) -> int {
    let a = spaces_end(s, i);
    if 0 <= a < s.len() && s[a] == COMMA {
        spaces_end(s, a + 1)
    } else {
        a
    }
}

/// The mathematical content of a rectangle: four exact decimals.
pub ghost struct Quad {
    pub x: Decimal,
    pub y: Decimal,
    pub width: Decimal,
    pub height: Decimal,
}

impl Quad {
    /// All four numbers are well formed.
    pub open spec fn wf(self) -> bool {
        self.x.wf() && self.y.wf() && self.width.wf() && self.height.wf()
    }

    /// Width or height is below zero.
    pub open spec fn has_negative_size(self) -> bool {
        self.width.is_negative() || self.height.is_negative()
    }

    /// The rectangle whose four numbers are `0`.
    pub open spec fn zero() -> Quad {
        Quad {
            x: Decimal::zero(),
            y: Decimal::zero(),
            width: Decimal::zero(),
            height: Decimal::zero(),
        }
    }
}

/// The four numbers that `s` holds, where all of `s` has the attribute's
/// shape; `None` where it has not: a number is missing or malformed, or
/// something other than whitespace follows the fourth.
pub open spec fn four_numbers(s: Seq<u8>) -> Option<Quad> {
    match number_at(s, spaces_end(s, 0)) {
        None => None,
        Some((x, i)) => match number_at(s, separator_end(s, i)) {
            None => None,
            Some((y, j)) => match number_at(s, separator_end(s, j)) {
                None => None,
                Some((width, k)) => match number_at(s, separator_end(s, k)) {
                    None => None,
                    Some((height, l)) => if spaces_end(s, l) == s.len() {
                        Some(Quad { x, y, width, height })
                    } else {
                        None
                    },
                },
            },
        },
    }
}

/// What a syntax error says.
pub open spec fn parse_message() -> Seq<char> {
    "string does not match 'x [,] y [,] w [,] h'"@
}

/// What the error about a negative size says.
pub open spec fn value_message() -> Seq<char> {
    "width and height must not be negative"@
}

/// `r` is what reading the attribute from the bytes `s` must give.
///
/// Where `s` has not the attribute's shape, a syntax error. Where it has and
/// width or height is negative, an error about the value. Else the active
/// view box of the four numbers that `s` holds.
pub open spec fn is_reading_of(r: Result<RsvgViewBox, AttributeError>, s: Seq<u8>) -> bool {
    match four_numbers(s) {
        None => r matches Err(e) && e.is_parse() && e.message() == parse_message(),
        Some(q) => if q.has_negative_size() {
            r matches Err(e) && e.is_value() && e.message() == value_message()
        } else {
            r matches Ok(v) && v.active && v.rect@ == q && v.wf()
        },
    }
}

/// The bytes, in UTF-8, of the text `s` without the whitespace at its ends.
pub open spec fn trimmed_bytes(s: Seq<char>) -> Seq<u8> {
    encode_utf8(trimmed(s))
}

/// Whether `b` is ASCII whitespace.
pub fn space_byte(b: u8) -> (r: bool)
    ensures
        r == is_space(b),
{
    b == SPACE || (TAB <= b && b <= CARRIAGE_RETURN)
}

/// Skips the whitespace that starts at `i`.
pub fn skip_spaces(s: &[u8], i: usize) -> (j: usize)
    requires
        i <= s@.len(),
    ensures
        j == spaces_end(s@, i as int),
        i <= j <= s@.len(),
{
    let mut j: usize = i;
    while j < s.len() && space_byte(s[j])
        invariant
            i <= j <= s@.len(),
            spaces_end(s@, j as int) == spaces_end(s@, i as int),
        decreases s@.len() - j,
    {
        j += 1;
    }
    j
}

/// Skips what parts two numbers: whitespace, at most one comma, whitespace.
pub fn skip_separator(s: &[u8], i: usize) -> (j: usize)
    requires
        i <= s@.len(),
    ensures
        j == separator_end(s@, i as int),
        i <= j <= s@.len(),
{
    let a: usize = skip_spaces(s, i);
    if a < s.len() && s[a] == COMMA {
        skip_spaces(s, a + 1)
    } else {
        a
    }
}

/// A run of whitespace lies inside the string, and what follows it is no
/// whitespace.
pub proof fn lemma_spaces_run(s: Seq<u8>, i: int)
    requires
        0 <= i <= s.len(),
    ensures
        i <= spaces_end(s, i) <= s.len(),
        spaces_end(s, i) < s.len() ==> !is_space(s[spaces_end(s, i)]),
        forall|k: int| i <= k < s.len() && !is_space(#[trigger] s[k]) ==> spaces_end(s, i) <= k,
    decreases s.len() - i,
{
    if i < s.len() && is_space(s[i]) {
        lemma_spaces_run(s, i + 1);
    }
}

/// A separator lies inside the string.
pub proof fn lemma_separator_run(s: Seq<u8>, i: int)
    requires
        0 <= i <= s.len(),
    ensures
        i <= separator_end(s, i) <= s.len(),
{
    lemma_spaces_run(s, i);
    let a = spaces_end(s, i);
    if a < s.len() {
        lemma_spaces_run(s, a + 1);
    }
}

/// A run of whitespace in `u` is the same run in `u + v`, unless it reaches
/// the end of `u` and `v` goes on with whitespace.
pub proof fn lemma_spaces_end_prefix(u: Seq<u8>, v: Seq<u8>, i: int)
    requires
        0 <= i <= u.len(),
        spaces_end(u, i) < u.len() || v.len() == 0 || !is_space(v[0]),
    ensures
        spaces_end(u + v, i) == spaces_end(u, i),
    decreases u.len() - i,
{
    if i < u.len() {
        assert((u + v)[i] == u[i]);
        if is_space(u[i]) {
            lemma_spaces_end_prefix(u, v, i + 1);
        }
    } else if v.len() > 0 {
        assert((u + v)[i] == v[0]);
    }
}

/// A run of whitespace in `v` is the same run, moved, in `u + v`.
pub proof fn lemma_spaces_end_suffix(u: Seq<u8>, v: Seq<u8>, k: int)
    requires
        0 <= k <= v.len(),
    ensures
        spaces_end(u + v, u.len() + k) == u.len() + spaces_end(v, k),
    decreases v.len() - k,
{
    if k < v.len() {
        assert((u + v)[u.len() + k] == v[k]);
        if is_space(v[k]) {
            lemma_spaces_end_suffix(u, v, k + 1);
        }
    }
}

/// Where all bytes from `i` on are whitespace, the run from `i` reaches the
/// end.
pub proof fn lemma_spaces_to_the_end(s: Seq<u8>, i: int)
    requires
        0 <= i <= s.len(),
        forall|k: int| i <= k < s.len() ==> is_space(#[trigger] s[k]),
    ensures
        spaces_end(s, i) == s.len(),
    decreases s.len() - i,
{
    if i < s.len() {
        lemma_spaces_to_the_end(s, i + 1);
    }
}

/// A run of whitespace that reaches the end of `u` goes on in `u + v` with
/// the whitespace at the start of `v`.
pub proof fn lemma_spaces_end_through(u: Seq<u8>, v: Seq<u8>, i: int)
    requires
        0 <= i <= u.len(),
        spaces_end(u, i) == u.len(),
    ensures
        spaces_end(u + v, i) == u.len() + spaces_end(v, 0),
    decreases u.len() - i,
{
    if i < u.len() {
        assert((u + v)[i] == u[i]);
        lemma_spaces_end_through(u, v, i + 1);
    } else {
        lemma_spaces_end_suffix(u, v, 0);
    }
}

/// A separator in `u` is the same separator in `u + v`, unless it reaches
/// the end of `u` and `v` goes on with whitespace or a comma.
pub proof fn lemma_separator_end_prefix(u: Seq<u8>, v: Seq<u8>, i: int)
    requires
        0 <= i <= u.len(),
        separator_end(u, i) < u.len() || v.len() == 0 || (!is_space(v[0]) && v[0] != COMMA),
    ensures
        separator_end(u + v, i) == separator_end(u, i),
{
    lemma_spaces_run(u, i);
    let a = spaces_end(u, i);
    if a < u.len() {
        lemma_spaces_run(u, a + 1);
        lemma_spaces_end_prefix(u, v, i);
        assert((u + v)[a] == u[a]);
        if u[a] == COMMA {
            lemma_spaces_end_prefix(u, v, a + 1);
        }
    } else {
        lemma_spaces_end_prefix(u, v, i);
        if v.len() > 0 {
            assert((u + v)[a] == v[0]);
        }
    }
}

/// A separator in `v` is the same separator, moved, in `u + v`.
pub proof fn lemma_separator_end_suffix(u: Seq<u8>, v: Seq<u8>, k: int)
    requires
        0 <= k <= v.len(),
    ensures
        separator_end(u + v, u.len() + k) == u.len() + separator_end(v, k),
{
    lemma_spaces_run(v, k);
    lemma_spaces_end_suffix(u, v, k);
    let a = spaces_end(v, k);
    if a < v.len() {
        assert((u + v)[u.len() + a] == v[a]);
        lemma_spaces_end_suffix(u, v, a + 1);
    }
}

/// A rectangle: a corner and a size, each number kept exactly.
#[derive(Debug, Clone, PartialEq, Eq)]
pub struct Rectangle {
    pub x: Number,
    pub y: Number,
    pub width: Number,
    pub height: Number,
}

impl View for Rectangle {
    type V = Quad;

    open spec fn view(&self) -> Quad {
        Quad { x: self.x@, y: self.y@, width: self.width@, height: self.height@ }
    }
}

/// Reads the four numbers of the attribute from `s`, which must hold nothing
/// else but separators between them and whitespace at its ends.
pub fn read_four_numbers(s: &[u8]) -> (r: Option<Rectangle>)
    ensures
        match four_numbers(s@) {
            Some(q) => r matches Some(rect) && rect@ == q && q.wf(),
            None => r is None,
        },
{
    let start: usize = skip_spaces(s, 0);
    let (x, i) = match read_number(s, start) {
        Some(p) => p,
        None => { return None; },
    };
    let (y, j) = match read_number(s, skip_separator(s, i)) {
        Some(p) => p,
        None => { return None; },
    };
    let (width, k) = match read_number(s, skip_separator(s, j)) {
        Some(p) => p,
        None => { return None; },
    };
    let (height, l) = match read_number(s, skip_separator(s, k)) {
        Some(p) => p,
        None => { return None; },
    };
    if skip_spaces(s, l) == s.len() {
        Some(Rectangle { x, y, width, height })
    } else {
        None
    }
}

/// A view box: a rectangle, and whether the attribute was given at all.
#[derive(Debug, Clone, PartialEq, Eq)]
pub struct RsvgViewBox {
    /// The rectangle that the attribute describes.
    pub rect: Rectangle,
    /// Whether the attribute was given.
    pub active: bool,
}

impl RsvgViewBox {
    /// The invariant of a view box: its numbers are well formed; an active
    /// one has no negative size; an inactive one is all zero.
    pub open spec fn wf(&self) -> bool {
        &&& self.rect@.wf()
        &&& self.active ==> !self.rect@.has_negative_size()
        &&& !self.active ==> self.rect@ == Quad::zero()
    }

    /// A view box of the given parts, taken as they are. It meets the
    /// invariant exactly when the parts do.
    pub fn new(rect: Rectangle, active: bool) -> (v: RsvgViewBox)
        ensures
            v.rect == rect,
            v.active == active,
            v.wf() <==> rect@.wf() && (active ==> !rect@.has_negative_size()) && (!active
                ==> rect@ == Quad::zero()),
    {
        RsvgViewBox { rect, active }
    }

    /// The view box of an element that has no such attribute: all zero, and
    /// not active.
    pub fn new_inactive() -> (v: RsvgViewBox)
        ensures
            !v.active,
            v.rect@ == Quad::zero(),
            v.wf(),
    {
        RsvgViewBox::new(
            Rectangle {
                x: Number::zero(),
                y: Number::zero(),
                width: Number::zero(),
                height: Number::zero(),
            },
            false,
        )
    }

    /// Whether the view box stands for an attribute that was given.
    pub fn is_active(&self) -> (b: bool)
        ensures
            b == self.active,
    {
        self.active
    }

    /// The active view box of four numbers, unless width or height is
    /// negative.
    pub fn from_numbers(rect: Rectangle) -> (r: Result<RsvgViewBox, AttributeError>)
        ensures
            if rect@.has_negative_size() {
                r matches Err(e) && e.is_value() && e.message() == value_message()
            } else {
                r matches Ok(v) && v.active && v.rect == rect && (rect@.wf() ==> v.wf())
            },
    {
        if rect.width.is_negative() || rect.height.is_negative() {
            Err(AttributeError::Value("width and height must not be negative".to_owned()))
        } else {
            Ok(RsvgViewBox::new(rect, true))
        }
    }

    /// Reads the attribute from its bytes.
    ///
    /// Succeeds exactly on the strings that hold four numbers in the
    /// attribute's shape, of which width and height are not negative. A
    /// string of another shape is a syntax error; a negative width or height
    /// in a string of the right shape is an error about the value.
    pub fn parse_bytes(s: &[u8]) -> (r: Result<RsvgViewBox, AttributeError>)
        ensures
            is_reading_of(r, s@),
    {
        match read_four_numbers(s) {
            Some(rect) => RsvgViewBox::from_numbers(rect),
            None => Err(
                AttributeError::Parse(
                    ParseError::new("string does not match 'x [,] y [,] w [,] h'"),
                ),
            ),
        }
    }

    /// Reads the attribute from its text.
    ///
    /// Whitespace at the two ends of the text is dropped first, be it ASCII
    /// or not; what is left is read as `parse_bytes` reads it.
    pub fn parse(s: &str) -> (r: Result<RsvgViewBox, AttributeError>)
        ensures
            is_reading_of(r, trimmed_bytes(s@)),
    {
        RsvgViewBox::parse_bytes(trim(s).as_bytes())
    }
}

impl Default for RsvgViewBox {
    /// The inactive view box.
    fn default() -> (v: RsvgViewBox)
        ensures
            !v.active,
            v.rect@ == Quad::zero(),
            v.wf(),
    {
        RsvgViewBox::new_inactive()
    }
}

impl FromStr for RsvgViewBox {
    type Err = AttributeError;

    /// Reads the attribute from its text, as `parse` does.
    fn from_str(s: &str) -> (r: Result<RsvgViewBox, AttributeError>)
        ensures
            is_reading_of(r, trimmed_bytes(s@)),
    {
        RsvgViewBox::parse(s)
    }
}

} // verus!
