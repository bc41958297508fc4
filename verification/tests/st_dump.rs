use std::sync::Arc;

use daft_ext::error::DaftError;
use daft_ext::expr::Expr;
use daft_ext::geometry::{Coord, Geometry, LineString, Polygon};
use daft_ext::schema::DataType;
use daft_ext::st_dump::{dump_geometry_parts_with_paths, st_dump, StDump};

fn at(x: f64, y: f64) -> Coord {
    Coord {
        x: x.to_bits(),
        y: y.to_bits(),
    }
}

fn line(n: usize) -> LineString {
    LineString {
        coords: Arc::new((0..n).map(|i| at(i as f64, 0.5)).collect()),
    }
}

fn polygon(n: usize) -> Polygon {
    Polygon {
        exterior: line(n),
        interiors: Arc::new(vec![line(4)]),
    }
}

#[test]
fn atomic_geometries_have_an_empty_path() {
    for g in [
        Geometry::Point(at(1.0, 2.0)),
        Geometry::Line(at(0.0, 0.0), at(1.0, 1.0)),
        Geometry::LineString(line(3)),
        Geometry::Polygon(polygon(5)),
        Geometry::Rect(at(0.0, 0.0), at(1.0, 1.0)),
        Geometry::Triangle(at(0.0, 0.0), at(1.0, 0.0), at(0.0, 1.0)),
    ] {
        assert_eq!(
            dump_geometry_parts_with_paths(&g, &[]),
            vec![(vec![], g.clone())]
        );
    }
}

#[test]
fn members_are_numbered_from_one() {
    let points = Geometry::MultiPoint(Arc::new(vec![at(1.0, 1.0), at(2.0, 2.0)]));
    assert_eq!(
        dump_geometry_parts_with_paths(&points, &[]),
        vec![
            (vec![1], Geometry::Point(at(1.0, 1.0))),
            (vec![2], Geometry::Point(at(2.0, 2.0))),
        ]
    );
    let lines = Geometry::MultiLineString(Arc::new(vec![line(2), line(3)]));
    assert_eq!(
        dump_geometry_parts_with_paths(&lines, &[9]),
        vec![
            (vec![9, 1], Geometry::LineString(line(2))),
            (vec![9, 2], Geometry::LineString(line(3))),
        ]
    );
    let polygons = Geometry::MultiPolygon(Arc::new(vec![polygon(4)]));
    assert_eq!(
        dump_geometry_parts_with_paths(&polygons, &[]),
        vec![(vec![1], Geometry::Polygon(polygon(4)))]
    );
}

#[test]
fn collections_are_flattened_with_nested_paths() {
    let inner = Geometry::GeometryCollection(Arc::new(vec![
        Geometry::Point(at(5.0, 5.0)),
        Geometry::MultiPoint(Arc::new(vec![at(6.0, 6.0), at(7.0, 7.0)])),
    ]));
    let outer = Geometry::GeometryCollection(Arc::new(vec![
        Geometry::LineString(line(2)),
        inner,
        Geometry::GeometryCollection(Arc::new(vec![])),
        Geometry::Point(at(8.0, 8.0)),
    ]));
    let parts = dump_geometry_parts_with_paths(&outer, &[]);
    let paths: Vec<Vec<i64>> = parts.iter().map(|p| p.0.clone()).collect();
    assert_eq!(
        paths,
        vec![
            vec![1],
            vec![2, 1],
            vec![2, 2, 1],
            vec![2, 2, 2],
            vec![4]
        ]
    );
    assert_eq!(parts[3].1, Geometry::Point(at(7.0, 7.0)));
}

#[test]
fn null_rows_stay_null() {
    let out = StDump.call(&vec![None, Some(Geometry::Point(at(1.0, 1.0)))]);
    assert!(out[0].is_none());
    assert_eq!(
        out[1],
        Some(vec![(vec![], Geometry::Point(at(1.0, 1.0)))])
    );
}

#[test]
fn dump_returns_a_list_of_structs() {
    assert_eq!(StDump.name(), "st_dump");
    assert!(StDump.docstring().starts_with("Returns the geometry's components"));
    let field = StDump.get_return_field(Ok(())).unwrap();
    assert_eq!(&*field.name, "st_dump");
    let DataType::List(item) = &field.dtype else {
        panic!("not a list")
    };
    let DataType::Struct(fields) = &**item else {
        panic!("not a struct")
    };
    assert_eq!(&*fields[0].name, "path");
    assert_eq!(fields[0].dtype, DataType::List(Arc::new(DataType::Int64)));
    assert_eq!(&*fields[1].name, "geom");
    assert_eq!(fields[1].dtype, DataType::Geometry);
    let refused = StDump.get_return_field(Err(DaftError::ValueError("no geometry".to_string())));
    assert_eq!(refused.unwrap_err().message(), "no geometry");
    let call = st_dump(Arc::new(Expr::Other("geom".to_string())));
    assert_eq!(call.func, StDump);
    assert_eq!(call.inputs.len(), 1);
}
