//! The cells of a geohash grid.
//!
//! A geohash of some length names one cell of a grid that divides the world into columns and rows. Its
//! characters hold the bits of the column and of the row by turns, the column's first. Numbers are held
//! as their IEEE 754 bits; every edge of a cell is a number that a double holds exactly.
use vstd::arithmetic::power2::{lemma_pow2_pos, lemma_pow2_unfold, pow2};
use vstd::prelude::*;

use crate::float_bits::{
    comparisons_chain, is_above, is_below, is_finite, is_less, is_nan, less, less_compares_numbers,
    units,
};

verus! {

/// A rectangle, as the bits of its least and greatest coordinates.
#[derive(Debug, Clone, Copy, PartialEq, Eq, Structural)]
pub struct Bounds {
    pub min_x: u64,
    pub min_y: u64,
    pub max_x: u64,
    pub max_y: u64,
}

impl Bounds {
    /// The rectangles share a point; none lies wholly to one side of the other.
    pub open spec fn meets(self, other: Bounds) -> bool {
        !(less(self.max_x, other.min_x) || less(self.max_y, other.min_y) || less(
            other.max_x,
            self.min_x,
        ) || less(other.max_y, self.min_y))
    }

    /// Whether the rectangles share a point.
    pub fn intersects(&self, other: &Bounds) -> (r: bool)
        ensures
            r == self.meets(*other),
    {
        !(is_less(self.max_x, other.min_x) || is_less(self.max_y, other.min_y) || is_less(
            other.max_x,
            self.min_x,
        ) || is_less(other.max_y, self.min_y))
    }
}

/// A character of the geohash alphabet: a digit, or a lower-case letter other than `a`, `i`, `l`, `o`.
pub open spec fn is_hash_char(c: char) -> bool {
    let n = c as u32;
    48 <= n <= 57 || (98 <= n <= 122 && n != 105 && n != 108 && n != 111)
}

/// The value of a character: its position in the alphabet.
pub open spec fn digit(c: char) -> int {
    let n = c as u32;
    if n <= 57 {
        n - 48
    } else if n <= 104 {
        n - 88
    } else if n <= 107 {
        n - 89
    } else if n <= 110 {
        n - 90
    } else {
        n - 91
    }
}

/// A geohash: one to twelve characters of the alphabet.
pub open spec fn is_hash(s: Seq<char>) -> bool {
    1 <= s.len() <= 12 && are_hash_chars(s)
}

/// All characters are of the alphabet.
pub open spec fn are_hash_chars(s: Seq<char>) -> bool {
    forall|i: int| 0 <= i < s.len() ==> is_hash_char(#[trigger] s[i])
}

/// The first, third and fifth of the five bits of a character's value.
pub open spec fn outer_bits(d: int) -> int {
    (d / 16 % 2) * 4 + (d / 4 % 2) * 2 + d % 2
}

/// The second and fourth of the five bits of a character's value.
pub open spec fn inner_bits(d: int) -> int {
    (d / 8 % 2) * 2 + d / 2 % 2
}

/// The character at that position starts with a bit of the column.
pub open spec fn column_first(i: int) -> bool {
    i % 2 == 0
}

/// The column of a cell, from west to east.
pub open spec fn column(s: Seq<char>) -> int
    decreases s.len(),
{
    if s.len() == 0 {
        0
    } else if column_first(s.len() - 1) {
        column(s.drop_last()) * 8 + outer_bits(digit(s.last()))
    } else {
        column(s.drop_last()) * 4 + inner_bits(digit(s.last()))
    }
}

/// The row of a cell, from south to north.
pub open spec fn row(s: Seq<char>) -> int
    decreases s.len(),
{
    if s.len() == 0 {
        0
    } else if column_first(s.len() - 1) {
        row(s.drop_last()) * 4 + inner_bits(digit(s.last()))
    } else {
        row(s.drop_last()) * 8 + outer_bits(digit(s.last()))
    }
}

/// The number of bits of a column.
pub open spec fn column_bits(length: nat) -> nat {
    (length * 5 + 1) / 2
}

/// The number of bits of a row.
pub open spec fn row_bits(length: nat) -> nat {
    length * 5 / 2
}

/// The number of columns of the grid of cells with geohashes of that length.
pub open spec fn columns(length: nat) -> nat {
    pow2(column_bits(length))
}

/// The number of rows of the grid.
pub open spec fn rows(length: nat) -> nat {
    pow2(row_bits(length))
}

/// The edge before the part at position `i` of a span that is centred at zero and divided into two to the
/// power of `bits` equal parts, counted in the least double above zero. That is `span * i / 2^bits - span
/// / 2`.
pub open spec fn edge(span: int, i: int, bits: nat) -> int {
    span * (2 * i - pow2(bits)) * pow2((1073 - bits) as nat)
}

/// The western edge of a column, in degrees.
pub open spec fn column_edge(length: nat, i: int) -> int {
    edge(360, i, column_bits(length))
}

/// The southern edge of a row, in degrees.
pub open spec fn row_edge(length: nat, i: int) -> int {
    edge(180, i, row_bits(length))
}

/// The bits stand for the number.
pub open spec fn stands_for(bits: u64, n: int) -> bool {
    is_finite(bits) && units(bits) == n
}

/// The rectangle of a cell reaches from the edges of its column and row to those of the next.
pub open spec fn is_rectangle_of(b: Bounds, hash: Seq<char>) -> bool {
    let n = hash.len();
    &&& stands_for(b.min_x, column_edge(n, column(hash)))
    &&& stands_for(b.max_x, column_edge(n, column(hash) + 1))
    &&& stands_for(b.min_y, row_edge(n, row(hash)))
    &&& stands_for(b.max_y, row_edge(n, row(hash) + 1))
}

/// `geohash::decode_bbox` gives the rectangle of a cell, and succeeds exactly on geohashes. Its numbers
/// are exact: an edge is a whole number of the span divided by at most two to the power of thirty, which
/// a double holds, and so is every number on the way to it. (It must not be called with an empty string.)
#[verifier::external_body]
pub(crate) fn decode_bounds(hash: &str) -> (r: Option<Bounds>)
    requires
        hash@.len() > 0,
    ensures
        r is Some <==> is_hash(hash@),
        r matches Some(b) ==> is_rectangle_of(b, hash@),
{
    match geohash::decode_bbox(hash) {
        Ok(b) => Some(Bounds {
            min_x: b.min().x.to_bits(),
            min_y: b.min().y.to_bits(),
            max_x: b.max().x.to_bits(),
            max_y: b.max().y.to_bits(),
        }),
        Err(_) => None,
    }
}

/// How many columns to the east the neighbour lies, of the eight from the north clockwise.
pub open spec fn columns_east(direction: int) -> int {
    if 1 <= direction <= 3 {
        1
    } else if 5 <= direction <= 7 {
        -1
    } else {
        0
    }
}

/// How many rows to the north the neighbour lies, of the eight from the north clockwise.
pub open spec fn rows_north(direction: int) -> int {
    if direction <= 1 || direction == 7 {
        1
    } else if 3 <= direction <= 5 {
        -1
    } else {
        0
    }
}

/// The second cell is the neighbour of the first in that direction. The grid is closed: beyond the last
/// column lies the first, and beyond the last row too.
pub open spec fn lies_next(from: Seq<char>, to: Seq<char>, direction: int) -> bool {
    let n = from.len();
    &&& is_hash(to)
    &&& to.len() == n
    &&& column(to) == (column(from) + columns_east(direction)) % columns(n) as int
    &&& row(to) == (row(from) + rows_north(direction)) % rows(n) as int
}

/// The second cell is one of the eight neighbours of the first.
pub open spec fn is_neighbour(from: Seq<char>, to: Seq<char>) -> bool {
    is_hash(from) && exists|direction: int|
        0 <= direction < 8 && #[trigger] lies_next(from, to, direction)
}

/// `geohash::neighbors` gives the eight neighbours of a cell, here clockwise from the north, and succeeds
/// exactly on geohashes. It hashes the centre of the neighbour's rectangle, which is exact as its edges
/// are; what is rounded in hashing it is far less than the distance from there to an edge. (It must not
/// be called with an empty string.)
#[verifier::external_body]
pub(crate) fn neighbor_cells(hash: &str) -> (r: Option<Vec<String>>)
    requires
        hash@.len() > 0,
    ensures
        r is Some <==> is_hash(hash@),
        r matches Some(v) ==> v@.len() == 8 && forall|i: int|
            0 <= i < 8 ==> lies_next(hash@, (#[trigger] v@[i])@, i),
{
    match geohash::neighbors(hash) {
        Ok(n) => Some(vec![n.n, n.ne, n.e, n.se, n.s, n.sw, n.w, n.nw]),
        Err(_) => None,
    }
}

/// The rectangle of the cell shares a point with the box.
pub open spec fn cell_meets(hash: Seq<char>, bbox: Bounds) -> bool {
    &&& column_meets(hash.len(), column(hash), bbox)
    &&& row_meets(hash.len(), row(hash), bbox)
}

/// The column does not lie wholly to the west or to the east of the box.
pub open spec fn column_meets(length: nat, i: int, bbox: Bounds) -> bool {
    !is_below(column_edge(length, i + 1), bbox.min_x) && !is_above(
        column_edge(length, i),
        bbox.max_x,
    )
}

/// The row does not lie wholly to the south or to the north of the box.
pub open spec fn row_meets(length: nat, i: int, bbox: Bounds) -> bool {
    !is_below(row_edge(length, i + 1), bbox.min_y) && !is_above(row_edge(length, i), bbox.max_y)
}

/// Comparing the bits of a cell's rectangle tells whether the cell meets a box.
pub(crate) proof fn rectangle_tells(b: Bounds, hash: Seq<char>, bbox: Bounds)
    requires
        is_rectangle_of(b, hash),
    ensures
        b.meets(bbox) <==> cell_meets(hash, bbox),
{
    let n = hash.len();
    less_compares_numbers(column_edge(n, column(hash)), b.min_x, bbox.max_x);
    less_compares_numbers(column_edge(n, column(hash) + 1), b.max_x, bbox.min_x);
    less_compares_numbers(row_edge(n, row(hash)), b.min_y, bbox.max_y);
    less_compares_numbers(row_edge(n, row(hash) + 1), b.max_y, bbox.min_y);
}

/// The five bits of a value make it up.
proof fn bits_make_digit(a: int, b: int)
    requires
        0 <= a < 32,
        0 <= b < 32,
        outer_bits(a) == outer_bits(b),
        inner_bits(a) == inner_bits(b),
    ensures
        a == b,
{
    assert(a == (a / 16 % 2) * 16 + (a / 8 % 2) * 8 + (a / 4 % 2) * 4 + (a / 2 % 2) * 2 + a % 2);
    assert(b == (b / 16 % 2) * 16 + (b / 8 % 2) * 8 + (b / 4 % 2) * 4 + (b / 2 % 2) * 2 + b % 2);
}

proof fn digit_range(c: char)
    requires
        is_hash_char(c),
    ensures
        0 <= digit(c) < 32,
        0 <= outer_bits(digit(c)) < 8,
        0 <= inner_bits(digit(c)) < 4,
{
}

proof fn same_digit_same_char(a: char, b: char)
    requires
        is_hash_char(a),
        is_hash_char(b),
        digit(a) == digit(b),
    ensures
        a == b,
{
    assert(a as u32 == b as u32);
}

proof fn drop_last_keeps_chars(s: Seq<char>)
    requires
        s.len() > 0,
        are_hash_chars(s),
    ensures
        are_hash_chars(s.drop_last()),
        is_hash_char(s.last()),
{
    assert(is_hash_char(s[s.len() - 1]));
    assert forall|i: int| 0 <= i < s.drop_last().len() implies is_hash_char(
        #[trigger] s.drop_last()[i],
    ) by {
        assert(s.drop_last()[i] == s[i]);
    }
}

/// What one more character does to the size of the grid.
proof fn grid_grows(length: nat)
    requires
        length > 0,
    ensures
        column_first(length - 1) ==> columns(length) == columns((length - 1) as nat) * 8 && rows(
            length,
        ) == rows((length - 1) as nat) * 4,
        !column_first(length - 1) ==> columns(length) == columns((length - 1) as nat) * 4 && rows(
            length,
        ) == rows((length - 1) as nat) * 8,
{
    let c = column_bits((length - 1) as nat);
    let r = row_bits((length - 1) as nat);
    lemma_pow2_unfold((c + 1) as nat);
    lemma_pow2_unfold((c + 2) as nat);
    lemma_pow2_unfold((c + 3) as nat);
    lemma_pow2_unfold((r + 1) as nat);
    lemma_pow2_unfold((r + 2) as nat);
    lemma_pow2_unfold((r + 3) as nat);
    if column_first(length - 1) {
        assert(column_bits(length) == c + 3 && row_bits(length) == r + 2);
    } else {
        assert(column_bits(length) == c + 2 && row_bits(length) == r + 3);
    }
}

proof fn grid_of_nothing()
    ensures
        columns(0) == 1,
        rows(0) == 1,
{
    vstd::arithmetic::power2::lemma2_to64();
}

/// Every cell lies in the grid.
pub(crate) proof fn cell_is_in_grid(s: Seq<char>)
    requires
        are_hash_chars(s),
    ensures
        0 <= column(s) < columns(s.len()),
        0 <= row(s) < rows(s.len()),
    decreases s.len(),
{
    if s.len() == 0 {
        grid_of_nothing();
    } else {
        drop_last_keeps_chars(s);
        cell_is_in_grid(s.drop_last());
        grid_grows(s.len());
        digit_range(s.last());
    }
}

/// A column and a row name one cell only.
pub(crate) proof fn position_names_one_cell(a: Seq<char>, b: Seq<char>)
    requires
        are_hash_chars(a),
        are_hash_chars(b),
        a.len() == b.len(),
        column(a) == column(b),
        row(a) == row(b),
    ensures
        a == b,
    decreases a.len(),
{
    if a.len() == 0 {
        assert(a =~= b);
    } else {
        drop_last_keeps_chars(a);
        drop_last_keeps_chars(b);
        let x = a.drop_last();
        let y = b.drop_last();
        digit_range(a.last());
        digit_range(b.last());
        assert(column(x) == column(y) && row(x) == row(y));
        bits_make_digit(digit(a.last()), digit(b.last()));
        same_digit_same_char(a.last(), b.last());
        position_names_one_cell(x, y);
        assert(a =~= x.push(a.last()));
        assert(b =~= y.push(b.last()));
    }
}

/// The character with that value.
spec fn char_of(d: int) -> char {
    if d < 10 {
        (d + 48) as char
    } else if d < 17 {
        (d + 88) as char
    } else if d < 19 {
        (d + 89) as char
    } else if d < 21 {
        (d + 90) as char
    } else {
        (d + 91) as char
    }
}

/// The value with these outer and inner bits.
spec fn digit_of(outer: int, inner: int) -> int {
    (outer / 4) * 16 + (inner / 2) * 8 + (outer / 2 % 2) * 4 + (inner % 2) * 2 + outer % 2
}

proof fn char_has_bits(outer: int, inner: int)
    requires
        0 <= outer < 8,
        0 <= inner < 4,
    ensures
        is_hash_char(char_of(digit_of(outer, inner))),
        outer_bits(digit(char_of(digit_of(outer, inner)))) == outer,
        inner_bits(digit(char_of(digit_of(outer, inner)))) == inner,
{
    let d = digit_of(outer, inner);
    assert(0 <= d < 32);
    let c = char_of(d);
    assert(is_hash_char(c));
    assert(digit(c) == d);
    assert(outer_bits(d) == outer && inner_bits(d) == inner);
}

/// The cell in that column and row.
spec fn cell_at(c: int, r: int, length: nat) -> Seq<char>
    decreases length,
{
    if length == 0 {
        Seq::empty()
    } else if column_first(length - 1) {
        cell_at(c / 8, r / 4, (length - 1) as nat).push(char_of(digit_of(c % 8, r % 4)))
    } else {
        cell_at(c / 4, r / 8, (length - 1) as nat).push(char_of(digit_of(r % 8, c % 4)))
    }
}

/// Every column and row of the grid name a cell.
proof fn position_names_a_cell(c: int, r: int, length: nat)
    requires
        0 <= c < columns(length),
        0 <= r < rows(length),
    ensures
        cell_at(c, r, length).len() == length,
        are_hash_chars(cell_at(c, r, length)),
        column(cell_at(c, r, length)) == c,
        row(cell_at(c, r, length)) == r,
    decreases length,
{
    if length == 0 {
        grid_of_nothing();
    } else {
        grid_grows(length);
        let s = cell_at(c, r, length);
        let init = s.drop_last();
        if column_first(length - 1) {
            position_names_a_cell(c / 8, r / 4, (length - 1) as nat);
            char_has_bits(c % 8, r % 4);
            assert(init =~= cell_at(c / 8, r / 4, (length - 1) as nat));
        } else {
            position_names_a_cell(c / 4, r / 8, (length - 1) as nat);
            char_has_bits(r % 8, c % 4);
            assert(init =~= cell_at(c / 4, r / 8, (length - 1) as nat));
        }
        assert forall|i: int| 0 <= i < s.len() implies is_hash_char(#[trigger] s[i]) by {
            if i < init.len() {
                assert(init[i] == s[i]);
            }
        }
    }
}

/// Edges lie from west to east and from south to north.
proof fn edges_increase(span: int, i: int, j: int, bits: nat)
    requires
        span > 0,
        i < j,
    ensures
        edge(span, i, bits) < edge(span, j, bits),
{
    lemma_pow2_pos((1073 - bits) as nat);
    let u = pow2((1073 - bits) as nat) as int;
    let p = pow2(bits) as int;
    assert(span * (2 * i - p) * u < span * (2 * j - p) * u) by (nonlinear_arith)
        requires
            span > 0,
            i < j,
            u > 0,
    ;
}

/// A column between two that meet a box meets it too.
proof fn columns_between_meet(length: nat, i: int, k: int, j: int, bbox: Bounds)
    requires
        i <= k <= j,
        column_meets(length, i, bbox),
        column_meets(length, j, bbox),
    ensures
        column_meets(length, k, bbox),
{
    if i < k {
        edges_increase(360, i + 1, k + 1, column_bits(length));
    }
    if k < j {
        edges_increase(360, k, j, column_bits(length));
    }
}

/// A row between two that meet a box meets it too.
proof fn rows_between_meet(length: nat, i: int, k: int, j: int, bbox: Bounds)
    requires
        i <= k <= j,
        row_meets(length, i, bbox),
        row_meets(length, j, bbox),
    ensures
        row_meets(length, k, bbox),
{
    if i < k {
        edges_increase(180, i + 1, k + 1, row_bits(length));
    }
    if k < j {
        edges_increase(180, k, j, row_bits(length));
    }
}

/// The number of steps from one number to another.
pub(crate) open spec fn gap(a: int, b: int) -> nat {
    if a <= b {
        (b - a) as nat
    } else {
        (a - b) as nat
    }
}

/// The number of columns and rows between two cells.
pub(crate) open spec fn distance(a: Seq<char>, b: Seq<char>) -> nat {
    gap(column(a), column(b)) + gap(row(a), row(b))
}

/// Of two cells that meet a box, a neighbour of the first that meets it too is closer to the second.
pub(crate) proof fn closer_neighbour(a: Seq<char>, b: Seq<char>, bbox: Bounds) -> (next: Seq<char>)
    requires
        is_hash(a),
        is_hash(b),
        a.len() == b.len(),
        a != b,
        cell_meets(a, bbox),
        cell_meets(b, bbox),
    ensures
        is_hash(next),
        next.len() == a.len(),
        is_neighbour(a, next),
        cell_meets(next, bbox),
        distance(next, b) < distance(a, b),
{
    let n = a.len();
    cell_is_in_grid(a);
    cell_is_in_grid(b);
    if column(a) == column(b) && row(a) == row(b) {
        position_names_one_cell(a, b);
    }
    let (ca, ra, cb, rb) = (column(a), row(a), column(b), row(b));
    let (c, r, direction) = if ca < cb {
        (ca + 1, ra, 2int)
    } else if ca > cb {
        (ca - 1, ra, 6int)
    } else if ra < rb {
        (ca, ra + 1, 0int)
    } else {
        (ca, ra - 1, 4int)
    };
    position_names_a_cell(c, r, n);
    let next = cell_at(c, r, n);
    if ca <= cb {
        columns_between_meet(n, ca, c, cb, bbox);
    } else {
        columns_between_meet(n, cb, c, ca, bbox);
    }
    if ra <= rb {
        rows_between_meet(n, ra, r, rb, bbox);
    } else {
        rows_between_meet(n, rb, r, ra, bbox);
    }
    vstd::arithmetic::div_mod::lemma_small_mod(c as nat, columns(n));
    vstd::arithmetic::div_mod::lemma_small_mod(r as nat, rows(n));
    assert(lies_next(a, next, direction));
    next
}

/// The point lies in the rectangle of the cell, its edges included.
pub open spec fn holds_point(hash: Seq<char>, x: u64, y: u64) -> bool {
    let n = hash.len();
    &&& !is_above(column_edge(n, column(hash)), x)
    &&& !is_below(column_edge(n, column(hash) + 1), x)
    &&& !is_above(row_edge(n, row(hash)), y)
    &&& !is_below(row_edge(n, row(hash) + 1), y)
}

/// The point lies in the box, its edges included.
pub open spec fn in_box(x: u64, y: u64, bbox: Bounds) -> bool {
    &&& !is_nan(x) && !is_nan(y)
    &&& !less(x, bbox.min_x) && !less(bbox.max_x, x)
    &&& !less(y, bbox.min_y) && !less(bbox.max_y, y)
}

/// A cell that holds a point of a box meets the box.
pub(crate) proof fn point_meets(hash: Seq<char>, x: u64, y: u64, bbox: Bounds)
    requires
        holds_point(hash, x, y),
        in_box(x, y, bbox),
    ensures
        cell_meets(hash, bbox),
{
    let n = hash.len();
    comparisons_chain(column_edge(n, column(hash) + 1), x, bbox.min_x);
    comparisons_chain(column_edge(n, column(hash)), x, bbox.max_x);
    comparisons_chain(row_edge(n, row(hash) + 1), y, bbox.min_y);
    comparisons_chain(row_edge(n, row(hash)), y, bbox.max_y);
}

} // verus!
