//! Planar geometries.
//!
//! A coordinate is held as the IEEE 754 bits of its two numbers: geometries are taken apart here, and no
//! arithmetic is done on them. Coordinate lists are shared, so that a part of a geometry is cheap to
//! copy.
use std::sync::Arc;
use vstd::prelude::*;

verus! {

/// A position, as the bits of its x and y.
#[derive(Debug, Clone, Copy, PartialEq, Eq, Structural)]
pub struct Coord {
    pub x: u64,
    pub y: u64,
}

/// A path through positions.
#[derive(Debug, PartialEq, Eq)]
pub struct LineString {
    pub coords: Arc<Vec<Coord>>,
}

/// An area with holes.
#[derive(Debug, PartialEq, Eq)]
pub struct Polygon {
    pub exterior: LineString,
    pub interiors: Arc<Vec<LineString>>,
}

/// A geometry.
#[derive(Debug, PartialEq, Eq)]
pub enum Geometry {
    Point(Coord),
    Line(Coord, Coord),
    LineString(LineString),
    Polygon(Polygon),
    MultiPoint(Arc<Vec<Coord>>),
    MultiLineString(Arc<Vec<LineString>>),
    MultiPolygon(Arc<Vec<Polygon>>),
    GeometryCollection(Arc<Vec<Geometry>>),
    Rect(Coord, Coord),
    Triangle(Coord, Coord, Coord),
}

impl Clone for LineString {
    fn clone(&self) -> (r: Self)
        ensures
            r == *self,
    {
        LineString { coords: self.coords.clone() }
    }
}

impl Clone for Polygon {
    fn clone(&self) -> (r: Self)
        ensures
            r == *self,
    {
        Polygon { exterior: self.exterior.clone(), interiors: self.interiors.clone() }
    }
}

impl Clone for Geometry {
    fn clone(&self) -> (r: Self)
        ensures
            r == *self,
    {
        match self {
            Geometry::Point(c) => Geometry::Point(*c),
            Geometry::Line(a, b) => Geometry::Line(*a, *b),
            Geometry::LineString(l) => Geometry::LineString(l.clone()),
            Geometry::Polygon(p) => Geometry::Polygon(p.clone()),
            Geometry::MultiPoint(v) => Geometry::MultiPoint(v.clone()),
            Geometry::MultiLineString(v) => Geometry::MultiLineString(v.clone()),
            Geometry::MultiPolygon(v) => Geometry::MultiPolygon(v.clone()),
            Geometry::GeometryCollection(v) => Geometry::GeometryCollection(v.clone()),
            Geometry::Rect(a, b) => Geometry::Rect(*a, *b),
            Geometry::Triangle(a, b, c) => Geometry::Triangle(*a, *b, *c),
        }
    }
}

impl Geometry {
    /// The geometry has no members of its own.
    pub open spec fn is_atomic(self) -> bool {
        !(self is MultiPoint || self is MultiLineString || self is MultiPolygon
            || self is GeometryCollection)
    }
}

} // verus!
