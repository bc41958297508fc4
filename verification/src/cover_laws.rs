//! What the geohash cells that cover a box are for.
//!
//! The cells of one length divide the world. A cover of a box lists those that share a position with the
//! box, so that whatever lies elsewhere can be told from its geohash alone.
use vstd::arithmetic::power2::{lemma_pow2_pos, pow2};
use vstd::prelude::*;

use crate::float_bits::{is_finite, less_compares_numbers, units};
use crate::geohash_cells::{
    cell_meets, column, column_edge, edge, holds_point, is_hash, row, row_edge, Bounds,
};
use crate::st_geohash::{
    are_cells_to_cover, cells_of_points_meet_the_box, covers_are_empty_for_large_boxes,
    covers_hold_the_cells_of_the_box, enters, is_capped_cover, is_covered, nested,
};

verus! {

/// The position, counted in the least double above zero, lies in the rectangle of the cell and in the box.
pub open spec fn is_shared(cell: Seq<char>, bbox: Bounds, x: int, y: int) -> bool {
    let n = cell.len();
    &&& column_edge(n, column(cell)) <= x <= column_edge(n, column(cell) + 1)
    &&& row_edge(n, row(cell)) <= y <= row_edge(n, row(cell) + 1)
    &&& units(bbox.min_x) <= x <= units(bbox.max_x)
    &&& units(bbox.min_y) <= y <= units(bbox.max_y)
}

/// The cell is one of that length, and has a position in common with the box.
pub open spec fn overlaps(cell: Seq<char>, bbox: Bounds, precision: usize) -> bool {
    &&& is_hash(cell)
    &&& cell.len() == precision
    &&& exists|x: int, y: int| #[trigger] is_shared(cell, bbox, x, y)
}

/// The box is a rectangle of finite numbers.
pub open spec fn is_finite_box(bbox: Bounds) -> bool {
    &&& is_finite(bbox.min_x) && is_finite(bbox.max_x)
    &&& is_finite(bbox.min_y) && is_finite(bbox.max_y)
    &&& units(bbox.min_x) <= units(bbox.max_x)
    &&& units(bbox.min_y) <= units(bbox.max_y)
}

proof fn edges_increase(span: int, i: int, bits: nat)
    requires
        span > 0,
    ensures
        edge(span, i, bits) <= edge(span, i + 1, bits),
{
    let p = pow2(bits) as int;
    let q = pow2((1073 - bits) as nat) as int;
    lemma_pow2_pos((1073 - bits) as nat);
    assert(span * (2 * i - p) * q <= span * (2 * (i + 1) - p) * q) by (nonlinear_arith)
        requires
            span > 0,
            q > 0,
    ;
}

proof fn cells_that_enter_overlap(cell: Seq<char>, bbox: Bounds, precision: usize)
    requires
        is_finite_box(bbox),
    ensures
        enters(cell, bbox, precision) <==> overlaps(cell, bbox, precision),
{
    let n = cell.len();
    edges_increase(360, column(cell), crate::geohash_cells::column_bits(n));
    edges_increase(180, row(cell), crate::geohash_cells::row_bits(n));
    let west = column_edge(n, column(cell));
    let south = row_edge(n, row(cell));
    let x = if west < units(bbox.min_x) {
        units(bbox.min_x)
    } else {
        west
    };
    let y = if south < units(bbox.min_y) {
        units(bbox.min_y)
    } else {
        south
    };
    if cell_meets(cell, bbox) {
        assert(is_shared(cell, bbox, x, y));
    }
}

/// A cover of a box that starts at the cell of its least corner lists the cells of the wanted length that
/// have a position in common with the box, all of them and no others; it is empty exactly where there are
/// more than 4096 of them.
pub proof fn covers_list_the_overlapping_cells(
    cover: Seq<Seq<char>>,
    start: Seq<char>,
    bbox: Bounds,
    precision: usize,
)
    requires
        is_finite_box(bbox),
        is_hash(start),
        start.len() == precision,
        holds_point(start, bbox.min_x, bbox.min_y),
        is_capped_cover(cover, start, bbox, precision),
    ensures
        cover.len() > 0 ==> forall|cell: Seq<char>| #[trigger]
            cover.contains(cell) <==> overlaps(cell, bbox, precision),
        cover.len() == 0 <==> exists|cells: Seq<Seq<char>>| #[trigger]
            are_overlapping(cells, bbox, precision) && cells.len() > 4096,
{
    less_compares_numbers(units(bbox.max_x), bbox.max_x, bbox.min_x);
    less_compares_numbers(units(bbox.max_y), bbox.max_y, bbox.min_y);
    less_compares_numbers(units(bbox.min_x), bbox.min_x, bbox.min_x);
    less_compares_numbers(units(bbox.min_y), bbox.min_y, bbox.min_y);
    cells_of_points_meet_the_box(start, bbox.min_x, bbox.min_y, bbox, precision);
    assert forall|cell: Seq<char>| enters(cell, bbox, precision) == #[trigger] overlaps(
        cell,
        bbox,
        precision,
    ) by {
        cells_that_enter_overlap(cell, bbox, precision);
    }
    assert(overlaps(start, bbox, precision));
    if cover.len() > 0 {
        covers_hold_the_cells_of_the_box(cover, start, bbox, precision);
        assert forall|cell: Seq<char>| #[trigger] cover.contains(cell) <==> overlaps(
            cell,
            bbox,
            precision,
        ) by {
            assert(overlaps(cell, bbox, precision) == enters(cell, bbox, precision));
        }
    }
    covers_are_empty_for_large_boxes(cover, start, bbox, precision);
    assert forall|cells: Seq<Seq<char>>| #[trigger]
        are_overlapping(cells, bbox, precision) == are_cells_to_cover(
            cells,
            start,
            bbox,
            precision,
        ) by {
        assert forall|i: int| 0 <= i < cells.len() implies (overlaps(
            #[trigger] cells[i],
            bbox,
            precision,
        ) <==> (cells[i] == start || enters(cells[i], bbox, precision))) by {
            assert(overlaps(cells[i], bbox, precision) == enters(cells[i], bbox, precision));
        }
        if are_cells_to_cover(cells, start, bbox, precision) {
            assert forall|i: int| 0 <= i < cells.len() implies overlaps(
                #[trigger] cells[i],
                bbox,
                precision,
            ) by {}
        }
    }
    if cover.len() == 0 {
        let cells = choose|cells: Seq<Seq<char>>| #[trigger]
            are_cells_to_cover(cells, start, bbox, precision) && cells.len()
                > crate::st_geohash::MAX_COVERING_CELLS;
        assert(are_overlapping(cells, bbox, precision));
    }
}

/// The cells have a position in common with the box, and none is listed twice.
pub open spec fn are_overlapping(cells: Seq<Seq<char>>, bbox: Bounds, precision: usize) -> bool {
    &&& cells.no_duplicates()
    &&& forall|i: int| 0 <= i < cells.len() ==> overlaps(#[trigger] cells[i], bbox, precision)
}

/// The text continues both the geohash and the cell.
pub open spec fn continues_both(text: Seq<char>, hash: Seq<char>, cell: Seq<char>) -> bool {
    hash.is_prefix_of(text) && cell.is_prefix_of(text)
}

/// A geohash is covered exactly where some text continues both it and one of the cells: what the two
/// stand for has something in common.
pub proof fn covered_hashes_have_a_common_continuation(hash: Seq<char>, cells: Seq<Seq<char>>)
    ensures
        is_covered(hash, cells) <==> exists|i: int, text: Seq<char>|
            0 <= i < cells.len() && #[trigger] continues_both(text, hash, cells[i]),
{
    if is_covered(hash, cells) {
        let i = choose|i: int| 0 <= i < cells.len() && nested(hash, #[trigger] cells[i]);
        if cells[i].is_prefix_of(hash) {
            assert(continues_both(hash, hash, cells[i]));
        } else {
            assert(continues_both(cells[i], hash, cells[i]));
        }
    }
    if exists|i: int, text: Seq<char>|
        0 <= i < cells.len() && #[trigger] continues_both(text, hash, cells[i]) {
        let (i, text) = choose|i: int, text: Seq<char>|
            0 <= i < cells.len() && #[trigger] continues_both(text, hash, cells[i]);
        let cell = cells[i];
        if cell.len() <= hash.len() {
            assert forall|k: int| 0 <= k < cell.len() implies cell[k] == hash[k] by {
                assert(text.subrange(0, cell.len() as int)[k] == text[k]);
                assert(text.subrange(0, hash.len() as int)[k] == text[k]);
            }
            assert(cell =~= hash.subrange(0, cell.len() as int));
        } else {
            assert forall|k: int| 0 <= k < hash.len() implies cell[k] == hash[k] by {
                assert(text.subrange(0, cell.len() as int)[k] == text[k]);
                assert(text.subrange(0, hash.len() as int)[k] == text[k]);
            }
            assert(hash =~= cell.subrange(0, hash.len() as int));
        }
        assert(nested(hash, cells[i]));
    }
}

} // verus!
