//! Geohashes: the cells that cover a bounding box, and the function that hashes a geometry's centroid.
//!
//! Numbers are held as their IEEE 754 bits. Hashing a position is arithmetic on numbers and is done by
//! the caller; what is done here is to walk from cell to cell.
use std::sync::Arc;
use vstd::prelude::*;

use crate::error::DaftError;
use crate::expr::Expr;
use crate::geohash_cells::{
    cell_meets, closer_neighbour, decode_bounds, distance, holds_point, in_box, is_hash,
    is_neighbour, lies_next, neighbor_cells, point_meets, position_names_one_cell,
    rectangle_tells, Bounds,
};
use crate::geometry::Geometry;
use crate::scalar_fn::ScalarFn;
use crate::schema::{DataType, Field};
use crate::text::{contains_text, has_prefix, texts};

verus! {

/// The walk may enter the cell: it has the wanted length, and its rectangle meets the box.
pub open spec fn enters(cell: Seq<char>, bbox: Bounds, precision: usize) -> bool {
    &&& cell.len() == precision
    &&& is_hash(cell)
    &&& cell_meets(cell, bbox)
}

/// The walk may go from the first cell to the second.
pub open spec fn step(from: Seq<char>, to: Seq<char>, bbox: Bounds, precision: usize) -> bool {
    &&& is_neighbour(from, to)
    &&& enters(to, bbox, precision)
}

/// A walk from cell to cell.
pub open spec fn is_walk(
    path: Seq<Seq<char>>,
    start: Seq<char>,
    bbox: Bounds,
    precision: usize,
) -> bool {
    &&& path.len() > 0
    &&& path[0] == start
    &&& forall|i: int, j: int|
        0 <= i && j == i + 1 && j < path.len() ==> step(
            #[trigger] path[i],
            #[trigger] path[j],
            bbox,
            precision,
        )
}

/// Some walk from the start leads to the cell.
pub open spec fn reachable(
    cell: Seq<char>,
    start: Seq<char>,
    bbox: Bounds,
    precision: usize,
) -> bool {
    exists|path: Seq<Seq<char>>|
        #[trigger] is_walk(path, start, bbox, precision) && path.last() == cell
}

proof fn walk_on(
    cell: Seq<char>,
    next: Seq<char>,
    start: Seq<char>,
    bbox: Bounds,
    precision: usize,
)
    requires
        reachable(cell, start, bbox, precision),
        step(cell, next, bbox, precision),
    ensures
        reachable(next, start, bbox, precision),
{
    let path = choose|path: Seq<Seq<char>>|
        #[trigger] is_walk(path, start, bbox, precision) && path.last() == cell;
    let longer = path.push(next);
    assert forall|i: int, j: int| 0 <= i && j == i + 1 && j < longer.len() implies step(
        #[trigger] longer[i],
        #[trigger] longer[j],
        bbox,
        precision,
    ) by {
        if j < path.len() {
            assert(step(path[i], path[j], bbox, precision));
        }
    }
    assert(is_walk(longer, start, bbox, precision));
    assert(longer.last() == next);
}

/// A set of cells with the start in it that no step leaves holds every cell that can be reached.
proof fn walks_stay_inside(
    path: Seq<Seq<char>>,
    cells: Seq<Seq<char>>,
    start: Seq<char>,
    bbox: Bounds,
    precision: usize,
)
    requires
        is_walk(path, start, bbox, precision),
        cells.contains(start),
        forall|a: Seq<char>, b: Seq<char>|
            cells.contains(a) && #[trigger] step(a, b, bbox, precision) ==> cells.contains(b),
    ensures
        cells.contains(path.last()),
    decreases path.len(),
{
    if path.len() > 1 {
        let shorter = path.drop_last();
        assert forall|i: int, j: int| 0 <= i && j == i + 1 && j < shorter.len() implies step(
            #[trigger] shorter[i],
            #[trigger] shorter[j],
            bbox,
            precision,
        ) by {
            assert(step(path[i], path[j], bbox, precision));
        }
        walks_stay_inside(shorter, cells, start, bbox, precision);
        assert(step(path[path.len() - 2], path[path.len() - 1], bbox, precision));
    }
}

/// The cells found so far: the start and then only cells of its length, none twice, each reachable.
spec fn is_front(
    cells: Seq<Seq<char>>,
    start: Seq<char>,
    bbox: Bounds,
    precision: usize,
) -> bool {
    &&& cells.len() > 0
    &&& cells[0] == start
    &&& cells.no_duplicates()
    &&& forall|i: int| 0 <= i < cells.len() ==> (#[trigger] cells[i]).len() == start.len()
    &&& forall|i: int|
        0 <= i < cells.len() ==> reachable(#[trigger] cells[i], start, bbox, precision)
}

/// The most cells of a cover.
pub const MAX_COVERING_CELLS: usize = 4096;

/// More cells can be reached from the start than a cover may have.
pub open spec fn is_oversized(start: Seq<char>, bbox: Bounds, precision: usize) -> bool {
    exists|cells: Seq<Seq<char>>|
        #[trigger] are_reachable(cells, start, bbox, precision) && cells.len() > MAX_COVERING_CELLS
}

/// The cells can be reached from the start, and none is listed twice.
pub open spec fn are_reachable(
    cells: Seq<Seq<char>>,
    start: Seq<char>,
    bbox: Bounds,
    precision: usize,
) -> bool {
    &&& cells.no_duplicates()
    &&& forall|i: int|
        0 <= i < cells.len() ==> reachable(#[trigger] cells[i], start, bbox, precision)
}

/// A list without duplicates of items that another list holds is no longer than that list.
proof fn held_items_are_no_more(a: Seq<Seq<char>>, b: Seq<Seq<char>>)
    requires
        a.no_duplicates(),
        b.no_duplicates(),
        forall|i: int| 0 <= i < a.len() ==> b.contains(#[trigger] a[i]),
    ensures
        a.len() <= b.len(),
{
    a.unique_seq_to_set();
    b.unique_seq_to_set();
    assert(a.to_set().subset_of(b.to_set())) by {
        assert forall|x: Seq<char>| a.to_set().contains(x) implies b.to_set().contains(x) by {
            let i = choose|i: int| 0 <= i < a.len() && a[i] == x;
            assert(b.contains(a[i]));
        }
    }
    vstd::set_lib::lemma_len_subset(a.to_set(), b.to_set());
}

/// The cells are all that can be reached from the start, or none where there are more of them than a
/// cover may have.
pub open spec fn is_capped_cover(
    cells: Seq<Seq<char>>,
    start: Seq<char>,
    bbox: Bounds,
    precision: usize,
) -> bool {
    if is_oversized(start, bbox, precision) {
        cells.len() == 0
    } else {
        forall|cell: Seq<char>|
            #[trigger] cells.contains(cell) <==> reachable(cell, start, bbox, precision)
    }
}

/// Every cell that a step from the cell at `i` leads to has been found.
spec fn is_expanded(cells: Seq<Seq<char>>, i: int, bbox: Bounds, precision: usize) -> bool {
    forall|to: Seq<char>| #[trigger] step(cells[i], to, bbox, precision) ==> cells.contains(to)
}

/// The cells of the cover: the walk from a cell outward, into neighbouring cells whose rectangle meets
/// the box only, until nothing new is found. A cover with more than [`MAX_COVERING_CELLS`] cells is
/// given up, and there are none then.
pub fn collect_covering_cells(start: &str, bbox: &Bounds, precision: usize) -> (r: Vec<String>)
    ensures
        texts(r@).no_duplicates(),
        start@.len() == 0 ==> r@.len() == 0,
        start@.len() > 0 ==> is_capped_cover(texts(r@), start@, *bbox, precision),
{
    let mut cells: Vec<String> = Vec::new();
    if start.unicode_len() == 0 {
        assert(texts(cells@).no_duplicates());
        return cells;
    }
    cells.push(start.to_owned());
    let ghost first = start@;
    proof {
        let path = seq![first];
        assert(is_walk(path, first, *bbox, precision));
        assert(path.last() == first);
        assert(texts(cells@) =~= path);
    }
    let mut head: usize = 0;
    while head < cells.len()
        invariant
            first == start@,
            first.len() > 0,
            head <= cells.len() <= MAX_COVERING_CELLS,
            is_front(texts(cells@), first, *bbox, precision),
            forall|i: int|
                0 <= i < head ==> #[trigger] is_expanded(texts(cells@), i, *bbox, precision),
        decreases MAX_COVERING_CELLS - head,
    {
        let ghost current = texts(cells@)[head as int];
        assert(current == cells@[head as int]@);
        match neighbor_cells(cells[head].as_str()) {
            None => {
                assert(is_expanded(texts(cells@), head as int, *bbox, precision));
            },
            Some(around) => {
                let mut k: usize = 0;
                while k < around.len()
                    invariant
                        first == start@,
                        first.len() > 0,
                        k <= around.len(),
                        head < cells.len() <= MAX_COVERING_CELLS,
                        around@.len() == 8,
                        current == texts(cells@)[head as int],
                        current.len() == first.len(),
                        is_hash(current),
                        forall|i: int|
                            0 <= i < 8 ==> lies_next(current, (#[trigger] around@[i])@, i),
                        is_front(texts(cells@), first, *bbox, precision),
                        forall|i: int|
                            0 <= i < head ==> #[trigger] is_expanded(
                                texts(cells@),
                                i,
                                *bbox,
                                precision,
                            ),
                        forall|i: int|
                            0 <= i < k && enters((#[trigger] around@[i])@, *bbox, precision)
                                ==> texts(cells@).contains(around@[i]@),
                    decreases around.len() - k,
                {
                    let ghost before = texts(cells@);
                    let ghost cell = around@[k as int]@;
                    if around[k].as_str().unicode_len() == precision && !contains_text(
                        &cells,
                        around[k].as_str(),
                    ) {
                        match decode_bounds(around[k].as_str()) {
                            Some(found) => {
                                proof {
                                    rectangle_tells(found, cell, *bbox);
                                }
                                if found.intersects(bbox) {
                                    proof {
                                        assert(lies_next(current, cell, k as int));
                                        assert(step(current, cell, *bbox, precision));
                                        walk_on(current, cell, first, *bbox, precision);
                                    }
                                    cells.push(around[k].clone());
                                    proof {
                                        assert(texts(cells@) =~= before.push(cell));
                                        front_grows(before, cell, first, *bbox, precision);
                                    }
                                    if cells.len() > MAX_COVERING_CELLS {
                                        let none: Vec<String> = Vec::new();
                                        proof {
                                            let found = texts(cells@);
                                            assert(are_reachable(found, first, *bbox, precision));
                                            assert(texts(none@) =~= Seq::empty());
                                        }
                                        return none;
                                    }
                                    proof {
                                        expanded_stay(before, cell, head as int, *bbox, precision);
                                        assert forall|i: int|
                                            0 <= i < k + 1 && enters(
                                                (#[trigger] around@[i])@,
                                                *bbox,
                                                precision,
                                            ) implies texts(cells@).contains(around@[i]@) by {
                                            if i < k {
                                                let w = choose|w: int|
                                                    0 <= w < before.len() && before[w]
                                                        == around@[i]@;
                                                assert(texts(cells@)[w] == around@[i]@);
                                            } else {
                                                assert(texts(cells@)[before.len() as int] == cell);
                                            }
                                        }
                                    }
                                }
                            },
                            None => {},
                        }
                    }
                    k = k + 1;
                }
                assert(is_expanded(texts(cells@), head as int, *bbox, precision)) by {
                    let all = texts(cells@);
                    assert forall|to: Seq<char>| #[trigger]
                        step(all[head as int], to, *bbox, precision) implies all.contains(to) by {
                        let i = choose|i: int| 0 <= i < 8 && #[trigger] lies_next(current, to, i);
                        assert(lies_next(current, around@[i]@, i));
                        position_names_one_cell(to, around@[i]@);
                    }
                }
            },
        }
        head = head + 1;
    }
    proof {
        let all = texts(cells@);
        assert forall|cell: Seq<char>| #[trigger] all.contains(cell) <==> reachable(
            cell,
            first,
            *bbox,
            precision,
        ) by {
            if all.contains(cell) {
                let i = choose|i: int| 0 <= i < all.len() && all[i] == cell;
                assert(reachable(all[i], first, *bbox, precision));
            }
            if reachable(cell, first, *bbox, precision) {
                let path = choose|path: Seq<Seq<char>>|
                    #[trigger] is_walk(path, first, *bbox, precision) && path.last() == cell;
                assert(all[0] == first);
                assert forall|a: Seq<char>, b: Seq<char>|
                    all.contains(a) && #[trigger] step(a, b, *bbox, precision) implies all.contains(
                    b,
                ) by {
                    let i = choose|i: int| 0 <= i < all.len() && all[i] == a;
                    assert(is_expanded(all, i, *bbox, precision));
                }
                walks_stay_inside(path, all, first, *bbox, precision);
            }
        }
        if is_oversized(first, *bbox, precision) {
            let more = choose|more: Seq<Seq<char>>|
                #[trigger] are_reachable(more, first, *bbox, precision) && more.len()
                    > MAX_COVERING_CELLS;
            assert forall|i: int| 0 <= i < more.len() implies all.contains(#[trigger] more[i]) by {
                assert(reachable(more[i], first, *bbox, precision));
            }
            held_items_are_no_more(more, all);
        }
    }
    cells
}

proof fn front_grows(
    cells: Seq<Seq<char>>,
    cell: Seq<char>,
    start: Seq<char>,
    bbox: Bounds,
    precision: usize,
)
    requires
        is_front(cells, start, bbox, precision),
        !cells.contains(cell),
        cell.len() == start.len(),
        reachable(cell, start, bbox, precision),
    ensures
        is_front(cells.push(cell), start, bbox, precision),
{
    let more = cells.push(cell);
    assert forall|i: int| 0 <= i < more.len() implies (#[trigger] more[i]).len() == start.len() by {
        if i < cells.len() {
            assert(more[i] == cells[i]);
        }
    }
    assert forall|i: int| 0 <= i < more.len() implies reachable(
        #[trigger] more[i],
        start,
        bbox,
        precision,
    ) by {
        if i < cells.len() {
            assert(more[i] == cells[i]);
        }
    }
}

proof fn expanded_stay(
    cells: Seq<Seq<char>>,
    cell: Seq<char>,
    head: int,
    bbox: Bounds,
    precision: usize,
)
    requires
        0 <= head <= cells.len(),
        forall|i: int| 0 <= i < head ==> #[trigger] is_expanded(cells, i, bbox, precision),
    ensures
        forall|i: int|
            0 <= i < head ==> #[trigger] is_expanded(cells.push(cell), i, bbox, precision),
{
    let more = cells.push(cell);
    assert forall|i: int| 0 <= i < head implies #[trigger] is_expanded(more, i, bbox, precision) by {
        assert(is_expanded(cells, i, bbox, precision));
        assert forall|to: Seq<char>| #[trigger] step(more[i], to, bbox, precision) implies more.contains(
            to,
        ) by {
            assert(step(cells[i], to, bbox, precision));
            let w = choose|w: int| 0 <= w < cells.len() && cells[w] == to;
            assert(more[w] == to);
        }
    }
}

/// Every cell of a cover but the start has the wanted length and meets the box: the walk never leaves
/// the box.
pub proof fn cover_is_tight(
    cell: Seq<char>,
    start: Seq<char>,
    bbox: Bounds,
    precision: usize,
)
    requires
        reachable(cell, start, bbox, precision),
    ensures
        cell == start || enters(cell, bbox, precision),
{
    let path = choose|path: Seq<Seq<char>>|
        #[trigger] is_walk(path, start, bbox, precision) && path.last() == cell;
    if path.len() > 1 {
        assert(step(path[path.len() - 2], path[path.len() - 1], bbox, precision));
    }
}

/// A neighbour of a cell of a cover that has the wanted length and meets the box is in the cover too.
pub proof fn cover_holds_neighbours(
    cell: Seq<char>,
    next: Seq<char>,
    start: Seq<char>,
    bbox: Bounds,
    precision: usize,
)
    requires
        reachable(cell, start, bbox, precision),
        step(cell, next, bbox, precision),
    ensures
        reachable(next, start, bbox, precision),
{
    walk_on(cell, next, start, bbox, precision);
}

/// The cells of the wanted length that meet the box are linked: steps within them lead from each to every
/// other.
pub open spec fn are_linked(bbox: Bounds, precision: usize) -> bool {
    forall|a: Seq<char>, b: Seq<char>|
        #[trigger] enters(a, bbox, precision) && #[trigger] enters(b, bbox, precision) ==> reachable(
            b,
            a,
            bbox,
            precision,
        )
}

/// A step and a walk from where it leads are a walk.
proof fn walk_from(
    cell: Seq<char>,
    next: Seq<char>,
    start: Seq<char>,
    bbox: Bounds,
    precision: usize,
)
    requires
        step(start, next, bbox, precision),
        reachable(cell, next, bbox, precision),
    ensures
        reachable(cell, start, bbox, precision),
{
    let path = choose|path: Seq<Seq<char>>|
        #[trigger] is_walk(path, next, bbox, precision) && path.last() == cell;
    let longer = seq![start] + path;
    assert forall|i: int, j: int| 0 <= i && j == i + 1 && j < longer.len() implies step(
        #[trigger] longer[i],
        #[trigger] longer[j],
        bbox,
        precision,
    ) by {
        assert(longer[j] == path[i]);
        if i > 0 {
            assert(longer[i] == path[i - 1]);
            assert(step(path[i - 1], path[i], bbox, precision));
        }
    }
    assert(is_walk(longer, start, bbox, precision));
    assert(longer.last() == cell);
}

proof fn walk_between(a: Seq<char>, b: Seq<char>, bbox: Bounds, precision: usize)
    requires
        enters(a, bbox, precision),
        enters(b, bbox, precision),
    ensures
        reachable(b, a, bbox, precision),
    decreases distance(a, b),
{
    if a == b {
        cover_holds_start(a, bbox, precision);
    } else {
        let next = closer_neighbour(a, b, bbox);
        walk_between(next, b, bbox, precision);
        walk_from(b, next, a, bbox, precision);
    }
}

/// The cells that meet a box are linked, whatever the box.
pub proof fn cells_of_a_box_are_linked(bbox: Bounds, precision: usize)
    ensures
        are_linked(bbox, precision),
{
    assert forall|a: Seq<char>, b: Seq<char>| #[trigger]
        enters(a, bbox, precision) && #[trigger] enters(b, bbox, precision) implies reachable(
        b,
        a,
        bbox,
        precision,
    ) by {
        walk_between(a, b, bbox, precision);
    }
}

/// A walk from the cell finds the box: the cell meets it, or one of its neighbours does.
pub open spec fn finds_box(start: Seq<char>, bbox: Bounds, precision: usize) -> bool {
    enters(start, bbox, precision) || exists|next: Seq<char>| #[trigger]
        step(start, next, bbox, precision)
}

/// A cover is complete: from a cell that finds the box, exactly the cells that meet the box can be
/// reached, besides the start itself.
pub proof fn cover_is_complete(start: Seq<char>, bbox: Bounds, precision: usize)
    requires
        finds_box(start, bbox, precision),
    ensures
        forall|cell: Seq<char>| #[trigger]
            reachable(cell, start, bbox, precision) <==> cell == start || enters(
                cell,
                bbox,
                precision,
            ),
{
    cells_of_a_box_are_linked(bbox, precision);
    cover_holds_start(start, bbox, precision);
    assert forall|cell: Seq<char>| #[trigger]
        reachable(cell, start, bbox, precision) <==> cell == start || enters(
            cell,
            bbox,
            precision,
        ) by {
        if reachable(cell, start, bbox, precision) {
            cover_is_tight(cell, start, bbox, precision);
        }
        if enters(cell, bbox, precision) && !enters(start, bbox, precision) {
            let next = choose|next: Seq<char>| #[trigger] step(start, next, bbox, precision);
            assert(enters(next, bbox, precision));
            walk_from(cell, next, start, bbox, precision);
        }
    }
}

/// The cells are the start or meet the box, and none is listed twice.
pub open spec fn are_cells_to_cover(
    cells: Seq<Seq<char>>,
    start: Seq<char>,
    bbox: Bounds,
    precision: usize,
) -> bool {
    &&& cells.no_duplicates()
    &&& forall|i: int|
        0 <= i < cells.len() ==> (#[trigger] cells[i]) == start || enters(
            cells[i],
            bbox,
            precision,
        )
}

/// A cover is empty exactly where there are more cells to cover than a cover may have.
pub proof fn covers_are_empty_for_large_boxes(
    cover: Seq<Seq<char>>,
    start: Seq<char>,
    bbox: Bounds,
    precision: usize,
)
    requires
        finds_box(start, bbox, precision),
        is_capped_cover(cover, start, bbox, precision),
    ensures
        cover.len() == 0 <==> exists|cells: Seq<Seq<char>>| #[trigger]
            are_cells_to_cover(cells, start, bbox, precision) && cells.len() > MAX_COVERING_CELLS,
{
    cover_is_complete(start, bbox, precision);
    if is_oversized(start, bbox, precision) {
        let cells = choose|cells: Seq<Seq<char>>|
            #[trigger] are_reachable(cells, start, bbox, precision) && cells.len()
                > MAX_COVERING_CELLS;
        assert(are_cells_to_cover(cells, start, bbox, precision));
    } else {
        assert(cover.contains(start));
        assert forall|cells: Seq<Seq<char>>| #[trigger]
            are_cells_to_cover(cells, start, bbox, precision) implies cells.len()
            <= MAX_COVERING_CELLS by {
            assert(are_reachable(cells, start, bbox, precision));
        }
    }
}

/// A cover that is not empty holds the start and the cells that meet the box, and no others.
pub proof fn covers_hold_the_cells_of_the_box(
    cover: Seq<Seq<char>>,
    start: Seq<char>,
    bbox: Bounds,
    precision: usize,
)
    requires
        finds_box(start, bbox, precision),
        is_capped_cover(cover, start, bbox, precision),
        cover.len() > 0,
    ensures
        forall|cell: Seq<char>| #[trigger]
            cover.contains(cell) <==> cell == start || enters(cell, bbox, precision),
{
    cover_is_complete(start, bbox, precision);
}

/// The cell of a point of the box meets the box; so does the start of a cover, which is the cell of the
/// box's least corner.
pub proof fn cells_of_points_meet_the_box(
    cell: Seq<char>,
    x: u64,
    y: u64,
    bbox: Bounds,
    precision: usize,
)
    requires
        is_hash(cell),
        cell.len() == precision,
        holds_point(cell, x, y),
        in_box(x, y, bbox),
    ensures
        enters(cell, bbox, precision),
        finds_box(cell, bbox, precision),
{
    point_meets(cell, x, y, bbox);
}

/// The start belongs to its own cover.
pub proof fn cover_holds_start(start: Seq<char>, bbox: Bounds, precision: usize)
    ensures
        reachable(start, start, bbox, precision),
{
    let path = seq![start];
    assert(is_walk(path, start, bbox, precision));
    assert(path.last() == start);
}

/// The cells that overlap a geometry's bounding box, for pruning partitions by geohash. Where there are
/// more than [`MAX_COVERING_CELLS`] of them there are none, and nothing is pruned.
///
/// `bbox` is the bounding box, where the geometry has one, and `corner_hash` the geohash of its least
/// corner, where it could be hashed. A geometry without a bounding box is covered by the cell of its
/// centroid, `centroid_hash`, if it has one.
pub fn geohash_covers_geometry(
    bbox: Option<Bounds>,
    corner_hash: Option<String>,
    centroid_hash: Option<String>,
    precision: usize,
) -> (r: Vec<String>)
    ensures
        texts(r@).no_duplicates(),
        match (bbox, corner_hash, centroid_hash) {
            (None, _, None) => r@.len() == 0,
            (None, _, Some(hash)) => texts(r@) == seq![hash@],
            (Some(_), None, _) => r@.len() == 0,
            (Some(b), Some(start), _) => if start@.len() == 0 {
                r@.len() == 0
            } else {
                is_capped_cover(texts(r@), start@, b, precision)
            },
        },
{
    match bbox {
        None => {
            let mut cells: Vec<String> = Vec::new();
            match centroid_hash {
                Some(hash) => {
                    cells.push(hash);
                    assert(texts(cells@) =~= seq![hash@]);
                },
                None => {},
            }
            cells
        },
        Some(b) => match corner_hash {
            Some(start) => collect_covering_cells(start.as_str(), &b, precision),
            None => Vec::new(),
        },
    }
}

/// The cell and the hash are nested: one continues the other.
pub open spec fn nested(hash: Seq<char>, cell: Seq<char>) -> bool {
    cell.is_prefix_of(hash) || hash.is_prefix_of(cell)
}

/// Some cell is nested with the hash.
pub open spec fn is_covered(hash: Seq<char>, cells: Seq<Seq<char>>) -> bool {
    exists|i: int| 0 <= i < cells.len() && nested(hash, #[trigger] cells[i])
}

/// A hash that is covered stays so when cells are added.
pub proof fn more_cells_cover_more(hash: Seq<char>, cells: Seq<Seq<char>>, more: Seq<Seq<char>>)
    requires
        is_covered(hash, cells),
        forall|i: int| 0 <= i < cells.len() ==> more.contains(#[trigger] cells[i]),
    ensures
        is_covered(hash, more),
{
    let i = choose|i: int| 0 <= i < cells.len() && nested(hash, #[trigger] cells[i]);
    let j = choose|j: int| 0 <= j < more.len() && more[j] == cells[i];
    assert(nested(hash, more[j]));
}

/// The geohashes of one point, by their length: each continues the shorter ones.
pub open spec fn are_hashes_of_a_point(hash_at: spec_fn(int) -> Seq<char>) -> bool {
    forall|m: int, n: int|
        1 <= m <= n <= 12 ==> (#[trigger] hash_at(m)).is_prefix_of(#[trigger] hash_at(n))
}

/// No point of the box is turned away: a geohash of the point, of any length, finer or coarser than the
/// cells, is covered by a cover that is not empty. The point lies in its cell; a point that is so close
/// to an edge that its hash is rounded across it does not, and may be turned away.
pub proof fn points_of_the_box_are_covered(
    x: u64,
    y: u64,
    hash_at: spec_fn(int) -> Seq<char>,
    cover: Seq<Seq<char>>,
    start: Seq<char>,
    bbox: Bounds,
    precision: usize,
    length: int,
)
    requires
        are_hashes_of_a_point(hash_at),
        1 <= precision <= 12,
        1 <= length <= 12,
        is_hash(hash_at(precision as int)),
        hash_at(precision as int).len() == precision,
        holds_point(hash_at(precision as int), x, y),
        in_box(x, y, bbox),
        finds_box(start, bbox, precision),
        is_capped_cover(cover, start, bbox, precision),
        cover.len() > 0,
    ensures
        is_covered(hash_at(length), cover),
{
    let cell = hash_at(precision as int);
    let hash = hash_at(length);
    cells_of_points_meet_the_box(cell, x, y, bbox, precision);
    covers_hold_the_cells_of_the_box(cover, start, bbox, precision);
    assert(cover.contains(cell));
    let i = choose|i: int| 0 <= i < cover.len() && cover[i] == cell;
    assert(nested(hash, cover[i]));
}

/// Whether a geohash is covered by one of the cells: one of the two continues the other. A fast test
/// before an exact one.
pub fn geohash_in_covering_cells(hash: &str, covering: &[String]) -> (r: bool)
    ensures
        r == is_covered(hash@, texts(covering@)),
{
    let mut i: usize = 0;
    while i < covering.len()
        invariant
            i <= covering.len(),
            forall|k: int| 0 <= k < i ==> !nested(hash@, (#[trigger] covering@[k])@),
        decreases covering.len() - i,
    {
        let cell = covering[i].as_str();
        if has_prefix(hash, cell) || has_prefix(cell, hash) {
            assert(nested(hash@, texts(covering@)[i as int]));
            return true;
        }
        i = i + 1;
    }
    false
}

/// The function that hashes a geometry's centroid.
#[derive(Debug, Clone, PartialEq, Eq, Hash)]
pub struct StGeohash {
    pub precision: u8,
}

/// What a call gives for a row: nothing where there is no geometry, else what `hash` gives for the
/// geometry at the function's precision.
pub open spec fn hashed_row<F: Fn(&Geometry, usize) -> Option<String>>(
    f: StGeohash,
    hash: F,
    row: Option<Geometry>,
    out: Option<String>,
) -> bool {
    match row {
        Some(geom) => call_ensures(hash, (&geom, f.precision as usize), out),
        None => out is None,
    }
}

impl StGeohash {
    /// The name of the function.
    pub fn name(&self) -> (r: &'static str)
        ensures
            r@ == "st_geohash"@,
    {
        "st_geohash"
    }

    /// The hash of each row's geometry at the function's precision; a row without a geometry has none.
    /// `hash` gives the geohash of a geometry's centroid, where there is one.
    pub fn call<F: Fn(&Geometry, usize) -> Option<String>>(
        &self,
        rows: &Vec<Option<Geometry>>,
        hash: F,
    ) -> (r: Vec<Option<String>>)
        requires
            forall|g: &Geometry, precision: usize| call_requires(hash, (g, precision)),
        ensures
            r@.len() == rows@.len(),
            forall|i: int| 0 <= i < r@.len() ==> hashed_row(*self, hash, rows@[i], #[trigger] r@[i]),
    {
        let mut out: Vec<Option<String>> = Vec::new();
        let mut i: usize = 0;
        while i < rows.len()
            invariant
                i <= rows.len(),
                out@.len() == i,
                forall|g: &Geometry, precision: usize| call_requires(hash, (g, precision)),
                forall|k: int| 0 <= k < i ==> hashed_row(*self, hash, rows@[k], #[trigger] out@[k]),
            decreases rows.len() - i,
        {
            match &rows[i] {
                Some(geom) => out.push(hash(geom, self.precision as usize)),
                None => out.push(None),
            }
            i = i + 1;
        }
        out
    }

    /// The field that a call produces, once its argument has been checked to be a geometry.
    pub fn get_return_field(&self, validated: Result<(), DaftError>) -> (r: Result<Field, DaftError>)
        ensures
            match validated {
                Ok(_) => r matches Ok(f) && f.name@ == "st_geohash"@ && f.dtype == DataType::Utf8,
                Err(e) => r == Err::<Field, DaftError>(e),
            },
    {
        validated?;
        Ok(Field::new(self.name(), DataType::Utf8))
    }

    /// What the function does.
    pub fn docstring(&self) -> (r: &'static str)
        ensures
            r@
                == "Returns the geohash string of a geometry's centroid at the given precision (1-12)."@,
    {
        "Returns the geohash string of a geometry's centroid at the given precision (1-12)."
    }
}

/// A call of `st_geohash` on an expression.
#[must_use]
pub fn st_geohash(geom: Arc<Expr>, precision: u8) -> (r: ScalarFn<StGeohash>)
    ensures
        r.func.precision == precision,
        r.inputs@ == seq![geom],
{
    ScalarFn::unary(StGeohash { precision }, geom)
}

} // verus!
