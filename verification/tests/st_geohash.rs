use std::collections::HashSet;
use std::sync::Arc;

use daft_ext::expr::Expr;
use daft_ext::float_bits::is_less;
use daft_ext::geohash_cells::Bounds;
use daft_ext::geometry as parts;
use daft_ext::schema::DataType;
use daft_ext::st_geohash::{
    collect_covering_cells, geohash_covers_geometry, geohash_in_covering_cells, st_geohash,
    StGeohash, MAX_COVERING_CELLS,
};
use geo::{BoundingRect, Geometry, Intersects, Rect};
use geohash::Coord as GeohashCoord;

fn rect(min: f64, max: f64) -> Rect<f64> {
    Rect::new(GeohashCoord { x: min, y: min }, GeohashCoord { x: max, y: max })
}

fn bounds(r: &Rect<f64>) -> Bounds {
    Bounds {
        min_x: r.min().x.to_bits(),
        min_y: r.min().y.to_bits(),
        max_x: r.max().x.to_bits(),
        max_y: r.max().y.to_bits(),
    }
}

fn covers(g: &Geometry, precision: usize) -> Vec<String> {
    let bbox = g.bounding_rect();
    let corner = bbox.and_then(|b| geohash::encode(b.min(), precision).ok());
    geohash_covers_geometry(bbox.as_ref().map(bounds), corner, None, precision)
}

#[test]
fn covering_includes_all_cells_of_a_2x2_bbox() {
    let rect = rect(0.02, 0.06);
    let cells = covers(&Geometry::Rect(rect), 5);
    let got: HashSet<String> = cells.into_iter().collect();
    for (x, y) in [(0.02, 0.02), (0.06, 0.02), (0.02, 0.06), (0.06, 0.06)] {
        let h = geohash::encode(GeohashCoord { x, y }, 5).unwrap();
        assert!(got.contains(&h), "missing cell {h} containing bbox corner ({x},{y})");
    }
}

#[test]
fn covering_includes_all_cells_of_a_wide_bbox() {
    let rect = rect(-10.0, 10.0);
    let cells = covers(&Geometry::Rect(rect), 3);
    let got: HashSet<String> = cells.into_iter().collect();
    let mut x = -10.0;
    while x <= 10.0 {
        let mut y = -10.0;
        while y <= 10.0 {
            let h = geohash::encode(GeohashCoord { x, y }, 3).unwrap();
            assert!(got.contains(&h), "missing cell {h} for point ({x},{y})");
            y += 0.5;
        }
        x += 0.5;
    }
}

#[test]
fn covering_cells_all_intersect_the_bbox() {
    let rect = rect(-1.0, 1.0);
    let cells = covers(&Geometry::Rect(rect), 4);
    assert!(!cells.is_empty());
    for cell in &cells {
        let cell_bbox = geohash::decode_bbox(cell).unwrap();
        assert!(
            cell_bbox.intersects(&rect),
            "cell {cell} does not intersect the query bbox"
        );
    }
}

#[test]
fn covering_is_closed_and_without_duplicates() {
    let rect = rect(-1.0, 1.0);
    let cells = covers(&Geometry::Rect(rect), 4);
    let set: HashSet<String> = cells.iter().cloned().collect();
    assert_eq!(set.len(), cells.len());
    for cell in &cells {
        let n = geohash::neighbors(cell).unwrap();
        for next in [n.n, n.ne, n.e, n.se, n.s, n.sw, n.w, n.nw] {
            if geohash::decode_bbox(&next).unwrap().intersects(&rect) {
                assert!(set.contains(&next), "neighbour {next} of {cell} is missing");
            }
        }
    }
}

#[test]
fn a_small_box_is_covered_by_its_cell() {
    let small = rect(0.001, 0.002);
    assert_eq!(covers(&Geometry::Rect(small), 3), vec!["s00".to_string()]);
}

#[test]
fn geometries_without_a_box_use_their_centroid() {
    assert_eq!(
        geohash_covers_geometry(None, None, Some("u1".to_string()), 2),
        vec!["u1".to_string()]
    );
    assert!(geohash_covers_geometry(None, None, None, 2).is_empty());
    let b = bounds(&rect(0.0, 1.0));
    assert!(geohash_covers_geometry(Some(b), None, None, 2).is_empty());
    assert!(collect_covering_cells("", &b, 2).is_empty());
}

#[test]
fn invalid_start_has_no_neighbours() {
    let b = bounds(&rect(0.0, 1.0));
    assert_eq!(collect_covering_cells("a!", &b, 2), vec!["a!".to_string()]);
    // A start of another length is kept, and its neighbours are not entered.
    assert_eq!(collect_covering_cells("s00", &b, 2), vec!["s00".to_string()]);
}

#[test]
fn bounds_intersect_as_rectangles_do() {
    let boxes = [
        rect(0.0, 1.0),
        rect(1.0, 2.0),
        rect(1.5, 1.75),
        rect(-2.0, -0.0),
        rect(f64::NEG_INFINITY, f64::INFINITY),
        Rect::new(
            GeohashCoord { x: f64::NAN, y: 0.0 },
            GeohashCoord { x: 5.0, y: 1.0 },
        ),
    ];
    for a in &boxes {
        for b in &boxes {
            assert_eq!(bounds(a).intersects(&bounds(b)), a.intersects(b));
        }
    }
}

#[test]
fn bits_are_ordered_as_numbers() {
    let numbers = [
        f64::NEG_INFINITY,
        -1.5,
        -f64::MIN_POSITIVE,
        -0.0,
        0.0,
        5e-324,
        1.0,
        f64::INFINITY,
        f64::NAN,
    ];
    for a in numbers {
        for b in numbers {
            assert_eq!(is_less(a.to_bits(), b.to_bits()), a < b, "{a} < {b}");
        }
    }
}

#[test]
fn hashes_are_covered_by_nested_cells() {
    let cells = vec!["u1".to_string(), "9q60y".to_string()];
    assert!(geohash_in_covering_cells("u1xyz", &cells));
    assert!(geohash_in_covering_cells("u", &cells));
    assert!(geohash_in_covering_cells("9q60y", &cells));
    assert!(geohash_in_covering_cells("", &cells));
    assert!(!geohash_in_covering_cells("9q61", &cells));
    assert!(!geohash_in_covering_cells("u1", &[]));
}

#[test]
fn geohash_returns_text() {
    let f = StGeohash { precision: 7 };
    assert_eq!(f.name(), "st_geohash");
    assert!(f.docstring().contains("centroid"));
    let field = f.get_return_field(Ok(())).unwrap();
    assert_eq!(&*field.name, "st_geohash");
    assert_eq!(field.dtype, DataType::Utf8);
    let call = st_geohash(Arc::new(Expr::Other("geom".to_string())), 7);
    assert_eq!(call.func, f);
    assert_eq!(call.inputs.len(), 1);
}

#[test]
fn covers_with_too_many_cells_are_empty() {
    // Cells of length five are about 0.044 degrees wide and high.
    let width = 360.0 / 8192.0;
    let box_of = |cells: f64| Geometry::Rect(rect(0.001, cells * width - 0.001));
    let most = covers(&box_of(64.0), 5);
    assert_eq!(most.len(), MAX_COVERING_CELLS);
    assert!(covers(&box_of(65.0), 5).is_empty());
    assert!(covers(&Geometry::Rect(rect(-80.0, 80.0)), 12).is_empty());
}

#[test]
fn rows_are_hashed_at_the_functions_precision() {
    let position = |x: f64, y: f64| {
        parts::Geometry::Point(parts::Coord {
            x: x.to_bits(),
            y: y.to_bits(),
        })
    };
    let hash = |g: &parts::Geometry, precision: usize| match g {
        parts::Geometry::Point(c) => {
            let coord = GeohashCoord {
                x: f64::from_bits(c.x),
                y: f64::from_bits(c.y),
            };
            geohash::encode(coord, precision).ok()
        }
        _ => None,
    };
    let rows = vec![
        Some(position(-120.6623, 35.3003)),
        None,
        Some(position(500.0, 0.0)),
    ];
    let hashes = StGeohash { precision: 5 }.call(&rows, hash);
    assert_eq!(hashes, vec![Some("9q60y".to_string()), None, None]);
}

const ALPHABET: &str = "0123456789bcdefghjkmnpqrstuvwxyz";

/// The column and the row of a cell: the bits of its characters by turns.
fn position(hash: &str) -> (u64, u64) {
    let (mut column, mut row) = (0u64, 0u64);
    let mut of_column = true;
    for c in hash.chars() {
        let digit = ALPHABET.find(c).unwrap() as u64;
        for shift in (0..5).rev() {
            let bit = (digit >> shift) & 1;
            if of_column {
                column = column * 2 + bit;
            } else {
                row = row * 2 + bit;
            }
            of_column = !of_column;
        }
    }
    (column, row)
}

fn columns(length: usize) -> u64 {
    1 << ((length * 5 + 1) / 2)
}

fn rows(length: usize) -> u64 {
    1 << (length * 5 / 2)
}

/// Geohashes of every length: the first and the last of each, and many between.
fn sample_hashes() -> Vec<String> {
    let letters: Vec<char> = ALPHABET.chars().collect();
    let mut hashes: Vec<String> = Vec::new();
    for length in 1..=12usize {
        for c in &letters {
            hashes.push(c.to_string().repeat(length));
        }
        for seed in 0..200usize {
            let mut state = seed * 7919 + length * 104_729 + 1;
            let mut hash = String::new();
            for _ in 0..length {
                state = (state * 1_103_515_245 + 12_345) % 2_147_483_648;
                hash.push(letters[(state / 65_536) % 32]);
            }
            hashes.push(hash);
        }
    }
    hashes
}

#[test]
fn rectangles_follow_columns_and_rows() {
    let edge = |span: f64, i: u64, parts: u64| span * i as f64 / parts as f64 - span / 2.0;
    for hash in sample_hashes() {
        let (column, row) = position(&hash);
        let b = geohash::decode_bbox(&hash).unwrap();
        let (c, r) = (columns(hash.len()), rows(hash.len()));
        assert_eq!(b.min().x, edge(360.0, column, c), "{hash}");
        assert_eq!(b.max().x, edge(360.0, column + 1, c), "{hash}");
        assert_eq!(b.min().y, edge(180.0, row, r), "{hash}");
        assert_eq!(b.max().y, edge(180.0, row + 1, r), "{hash}");
    }
    assert!(geohash::decode_bbox("9q60a").is_err());
    assert!(geohash::decode_bbox("0123456789bcd").is_err());
    assert!(geohash::decode_bbox("S0").is_err());
}

#[test]
fn neighbours_lie_in_the_columns_and_rows_around() {
    for hash in sample_hashes() {
        let (column, row) = position(&hash);
        let (c, r) = (columns(hash.len()), rows(hash.len()));
        let n = geohash::neighbors(&hash).unwrap();
        let around = [
            (n.n, 0, 1),
            (n.ne, 1, 1),
            (n.e, 1, 0),
            (n.se, 1, r - 1),
            (n.s, 0, r - 1),
            (n.sw, c - 1, r - 1),
            (n.w, c - 1, 0),
            (n.nw, c - 1, 1),
        ];
        for (next, east, north) in around {
            assert_eq!(next.len(), hash.len());
            assert_eq!(
                position(&next),
                ((column + east) % c, (row + north) % r),
                "{next} beside {hash}"
            );
        }
    }
    assert!(geohash::neighbors("9q60a").is_err());
}

/// All cells of that length that meet the box.
fn cells_of_box(r: &Rect<f64>, length: usize) -> HashSet<String> {
    let mut hashes = vec![String::new()];
    for _ in 0..length {
        let mut longer: Vec<String> = Vec::new();
        for hash in &hashes {
            for c in ALPHABET.chars() {
                longer.push(format!("{hash}{c}"));
            }
        }
        hashes = longer;
    }
    hashes
        .into_iter()
        .filter(|h| geohash::decode_bbox(h).unwrap().intersects(r))
        .collect()
}

#[test]
fn covers_are_complete() {
    let boxes = [
        ((-10.0, -10.0), (10.0, 10.0)),
        ((170.0, 80.0), (180.0, 90.0)),
        ((-180.0, -90.0), (-170.0, -80.0)),
        ((-180.0, -1.0), (180.0, 1.0)),
        ((0.0, -90.0), (0.5, 90.0)),
        ((45.0, 45.0), (45.0, 45.0)),
        ((-1.40625, -1.40625), (1.40625, 1.40625)),
    ];
    for ((x0, y0), (x1, y1)) in boxes {
        let b = Rect::new(GeohashCoord { x: x0, y: y0 }, GeohashCoord { x: x1, y: y1 });
        for precision in 1..=3usize {
            let cells: HashSet<String> = covers(&Geometry::Rect(b), precision).into_iter().collect();
            assert_eq!(cells, cells_of_box(&b, precision), "{b:?} at {precision}");
        }
    }
}

#[test]
fn points_of_a_box_are_found_by_hashes_of_any_length() {
    let b = rect(-3.0, 4.0);
    let cover = covers(&Geometry::Rect(b), 4);
    for i in 0..=70 {
        for j in 0..=70 {
            let point = GeohashCoord {
                x: -3.0 + f64::from(i) * 0.1,
                y: -3.0 + f64::from(j) * 0.1,
            };
            for length in [1usize, 3, 4, 5, 9, 12] {
                let hash = geohash::encode(point, length).unwrap();
                assert!(geohash_in_covering_cells(&hash, &cover), "{hash}");
            }
        }
    }
}

#[test]
fn a_start_beside_the_box_finds_it() {
    // The start does not meet the box, but the cell to its west does.
    let b = bounds(&Rect::new(
        GeohashCoord { x: -2.0, y: 0.25 },
        GeohashCoord { x: -0.25, y: 0.5 },
    ));
    let cells: HashSet<String> = collect_covering_cells("s00", &b, 3).into_iter().collect();
    assert_eq!(
        cells,
        HashSet::from(["s00".to_string(), "ebp".to_string(), "ebn".to_string()])
    );
}
