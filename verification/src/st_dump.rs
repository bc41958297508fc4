//! Taking a geometry apart into its atomic components.
use std::sync::Arc;
use vstd::prelude::*;

use crate::error::DaftError;
use crate::expr::Expr;
use crate::geometry::Geometry;
use crate::scalar_fn::ScalarFn;
use crate::schema::{DataType, Field};

verus! {

/// The components of a geometry with their paths below `prefix`: a geometry without members is its own
/// only component; the members of a multi-geometry are numbered from one; a collection is taken apart
/// recursively.
pub open spec fn dump(geom: Geometry, prefix: Seq<i64>) -> Seq<(Seq<i64>, Geometry)>
    decreases geom, 0nat,
{
    match geom {
        Geometry::MultiPoint(v) => Seq::new(
            v@.len(),
            |i: int| (prefix.push((i + 1) as i64), Geometry::Point(v@[i])),
        ),
        Geometry::MultiLineString(v) => Seq::new(
            v@.len(),
            |i: int| (prefix.push((i + 1) as i64), Geometry::LineString(v@[i])),
        ),
        Geometry::MultiPolygon(v) => Seq::new(
            v@.len(),
            |i: int| (prefix.push((i + 1) as i64), Geometry::Polygon(v@[i])),
        ),
        Geometry::GeometryCollection(v) => dump_members(v@, v@.len(), prefix),
        _ => seq![(prefix, geom)],
    }
}

/// The components of the first `n` members of a collection.
pub open spec fn dump_members(members: Seq<Geometry>, n: nat, prefix: Seq<i64>) -> Seq<
    (Seq<i64>, Geometry),
>
    decreases members, n,
{
    if n == 0 || n > members.len() {
        Seq::empty()
    } else {
        dump_members(members, (n - 1) as nat, prefix) + dump(
            members[n - 1],
            prefix.push(n as i64),
        )
    }
}

/// The components that a list holds.
pub open spec fn components(parts: Seq<(Vec<i64>, Geometry)>) -> Seq<(Seq<i64>, Geometry)> {
    parts.map_values(|p: (Vec<i64>, Geometry)| (p.0@, p.1))
}

fn path_to(prefix: &[i64], n: usize) -> (r: Vec<i64>)
    ensures
        r@ == prefix@.push(n as i64),
{
    let mut path: Vec<i64> = Vec::new();
    let mut i: usize = 0;
    while i < prefix.len()
        invariant
            i <= prefix.len(),
            path@ == prefix@.take(i as int),
        decreases prefix.len() - i,
    {
        path.push(prefix[i]);
        i = i + 1;
        assert(path@ =~= prefix@.take(i as int));
    }
    assert(path@ =~= prefix@);
    path.push(n as i64);
    path
}

fn copy_path(prefix: &[i64]) -> (r: Vec<i64>)
    ensures
        r@ == prefix@,
{
    let mut path: Vec<i64> = Vec::new();
    let mut i: usize = 0;
    while i < prefix.len()
        invariant
            i <= prefix.len(),
            path@ == prefix@.take(i as int),
        decreases prefix.len() - i,
    {
        path.push(prefix[i]);
        i = i + 1;
        assert(path@ =~= prefix@.take(i as int));
    }
    assert(path@ =~= prefix@);
    path
}

/// The components of a geometry with their paths below `prefix`.
pub fn dump_geometry_parts_with_paths(geom: &Geometry, prefix: &[i64]) -> (r: Vec<
    (Vec<i64>, Geometry),
>)
    ensures
        components(r@) == dump(*geom, prefix@),
    decreases *geom,
{
    let mut out: Vec<(Vec<i64>, Geometry)> = Vec::new();
    assert(components(out@) =~= Seq::empty());
    match geom {
        Geometry::MultiPoint(points) => {
            let mut i: usize = 0;
            while i < points.len()
                invariant
                    *geom == Geometry::MultiPoint(*points),
                    i <= points.len(),
                    components(out@) == dump(*geom, prefix@).take(i as int),
                decreases points.len() - i,
            {
                let ghost before = out@;
                out.push((path_to(prefix, i + 1), Geometry::Point(points[i])));
                i = i + 1;
                proof {
                    assert(components(out@) =~= components(before).push(
                        (out@.last().0@, out@.last().1),
                    ));
                    assert(components(out@) =~= dump(*geom, prefix@).take(i as int));
                }
            }
            assert(components(out@) =~= dump(*geom, prefix@));
        },
        Geometry::MultiLineString(lines) => {
            let mut i: usize = 0;
            while i < lines.len()
                invariant
                    *geom == Geometry::MultiLineString(*lines),
                    i <= lines.len(),
                    components(out@) == dump(*geom, prefix@).take(i as int),
                decreases lines.len() - i,
            {
                let ghost before = out@;
                out.push((path_to(prefix, i + 1), Geometry::LineString(lines[i].clone())));
                i = i + 1;
                proof {
                    assert(components(out@) =~= components(before).push(
                        (out@.last().0@, out@.last().1),
                    ));
                    assert(components(out@) =~= dump(*geom, prefix@).take(i as int));
                }
            }
            assert(components(out@) =~= dump(*geom, prefix@));
        },
        Geometry::MultiPolygon(polygons) => {
            let mut i: usize = 0;
            while i < polygons.len()
                invariant
                    *geom == Geometry::MultiPolygon(*polygons),
                    i <= polygons.len(),
                    components(out@) == dump(*geom, prefix@).take(i as int),
                decreases polygons.len() - i,
            {
                let ghost before = out@;
                out.push((path_to(prefix, i + 1), Geometry::Polygon(polygons[i].clone())));
                i = i + 1;
                proof {
                    assert(components(out@) =~= components(before).push(
                        (out@.last().0@, out@.last().1),
                    ));
                    assert(components(out@) =~= dump(*geom, prefix@).take(i as int));
                }
            }
            assert(components(out@) =~= dump(*geom, prefix@));
        },
        Geometry::GeometryCollection(members) => {
            let mut i: usize = 0;
            while i < members.len()
                invariant
                    *geom == Geometry::GeometryCollection(*members),
                    i <= members.len(),
                    components(out@) == dump_members(members@, i as nat, prefix@),
                decreases members.len() - i,
            {
                let child_prefix = path_to(prefix, i + 1);
                proof {
                    assert(decreases_to!(*geom => geom->GeometryCollection_0));
                    assert(decreases_to!(geom->GeometryCollection_0 => members@));
                }
                let mut parts = dump_geometry_parts_with_paths(
                    &members[i],
                    child_prefix.as_slice(),
                );
                let ghost before = out@;
                let ghost added = parts@;
                out.append(&mut parts);
                assert(components(out@) =~= components(before) + components(added));
                i = i + 1;
            }
        },
        _ => {
            out.push((copy_path(prefix), geom.clone()));
            assert(components(out@) =~= seq![(prefix@, *geom)]);
        },
    }
    out
}

/// The lists of the geometry are short enough to be numbered.
pub open spec fn numberable(geom: Geometry) -> bool
    decreases geom,
{
    match geom {
        Geometry::MultiPoint(v) => v@.len() <= i64::MAX,
        Geometry::MultiLineString(v) => v@.len() <= i64::MAX,
        Geometry::MultiPolygon(v) => v@.len() <= i64::MAX,
        Geometry::GeometryCollection(v) => v@.len() <= i64::MAX && forall|i: int|
            0 <= i < v@.len() ==> numberable(#[trigger] v@[i]),
        _ => true,
    }
}

/// The component of a geometry at a path.
pub open spec fn component_at(geom: Geometry, path: Seq<i64>) -> Option<Geometry>
    decreases geom,
{
    match geom {
        Geometry::MultiPoint(v) => if path.len() == 1 && 1 <= path[0] <= v@.len() {
            Some(Geometry::Point(v@[path[0] - 1]))
        } else {
            None
        },
        Geometry::MultiLineString(v) => if path.len() == 1 && 1 <= path[0] <= v@.len() {
            Some(Geometry::LineString(v@[path[0] - 1]))
        } else {
            None
        },
        Geometry::MultiPolygon(v) => if path.len() == 1 && 1 <= path[0] <= v@.len() {
            Some(Geometry::Polygon(v@[path[0] - 1]))
        } else {
            None
        },
        Geometry::GeometryCollection(v) => if path.len() >= 1 && 1 <= path[0] <= v@.len() {
            component_at(v@[path[0] - 1], path.skip(1))
        } else {
            None
        },
        _ => if path.len() == 0 {
            Some(geom)
        } else {
            None
        },
    }
}

/// Every component is atomic, and its path starts with the prefix.
pub proof fn components_are_atomic(geom: Geometry, prefix: Seq<i64>)
    ensures
        forall|k: int|
            0 <= k < dump(geom, prefix).len() ==> {
                let part = #[trigger] dump(geom, prefix)[k];
                &&& part.1.is_atomic()
                &&& part.0.len() >= prefix.len()
                &&& part.0.take(prefix.len() as int) == prefix
            },
    decreases geom, 0nat,
{
    match geom {
        Geometry::GeometryCollection(v) => {
            let all = dump_members(v@, v@.len(), prefix);
            member_components_are_atomic(v@, v@.len(), prefix);
            assert(dump(geom, prefix) == all);
            assert forall|k: int| 0 <= k < dump(geom, prefix).len() implies {
                let part = #[trigger] dump(geom, prefix)[k];
                &&& part.1.is_atomic()
                &&& part.0.len() >= prefix.len()
                &&& part.0.take(prefix.len() as int) == prefix
            } by {
                assert(all[k].0.len() > prefix.len());
            }
        },
        _ => {
            assert forall|k: int| 0 <= k < dump(geom, prefix).len() implies {
                let part = #[trigger] dump(geom, prefix)[k];
                &&& part.1.is_atomic()
                &&& part.0.len() >= prefix.len()
                &&& part.0.take(prefix.len() as int) == prefix
            } by {
                assert(dump(geom, prefix)[k].0.take(prefix.len() as int) =~= prefix);
            }
        },
    }
}

proof fn member_components_are_atomic(members: Seq<Geometry>, n: nat, prefix: Seq<i64>)
    ensures
        forall|k: int|
            0 <= k < dump_members(members, n, prefix).len() ==> {
                let part = #[trigger] dump_members(members, n, prefix)[k];
                &&& part.1.is_atomic()
                &&& part.0.len() > prefix.len()
                &&& part.0.take(prefix.len() as int) == prefix
                &&& members.len() <= i64::MAX ==> 1 <= part.0[prefix.len() as int] <= n
            },
    decreases members, n,
{
    if 0 < n <= members.len() {
        let before = dump_members(members, (n - 1) as nat, prefix);
        let below = prefix.push(n as i64);
        let added = dump(members[n - 1], below);
        member_components_are_atomic(members, (n - 1) as nat, prefix);
        components_are_atomic(members[n - 1], below);
        let all = dump_members(members, n, prefix);
        assert forall|k: int| 0 <= k < all.len() implies {
            let part = #[trigger] all[k];
            &&& part.1.is_atomic()
            &&& part.0.len() > prefix.len()
            &&& part.0.take(prefix.len() as int) == prefix
            &&& members.len() <= i64::MAX ==> 1 <= part.0[prefix.len() as int] <= n
        } by {
            if k < before.len() {
                assert(all[k] == before[k]);
            } else {
                let part = added[k - before.len()];
                assert(all[k] == part);
                assert(part.0.take(below.len() as int) == below);
                assert(part.0.take(prefix.len() as int) =~= below.take(prefix.len() as int)) by {
                    assert forall|i: int| 0 <= i < prefix.len() implies part.0[i] == below[i] by {
                        assert(part.0.take(below.len() as int)[i] == below[i]);
                    }
                }
                assert(below.take(prefix.len() as int) =~= prefix);
                assert(part.0[prefix.len() as int] == part.0.take(
                    below.len() as int,
                )[prefix.len() as int]);
                assert(part.0[prefix.len() as int] == n as i64);
            }
        }
    }
}

/// Following the path of a component from the geometry leads to that component.
pub proof fn paths_lead_to_components(geom: Geometry, prefix: Seq<i64>)
    requires
        numberable(geom),
    ensures
        forall|k: int|
            0 <= k < dump(geom, prefix).len() ==> {
                let part = #[trigger] dump(geom, prefix)[k];
                component_at(geom, part.0.skip(prefix.len() as int)) == Some(part.1)
            },
    decreases geom, 0nat,
{
    match geom {
        Geometry::GeometryCollection(v) => {
            member_paths_lead_to_components(v@, v@.len(), prefix, geom);
        },
        _ => {
            assert forall|k: int| 0 <= k < dump(geom, prefix).len() implies {
                let part = #[trigger] dump(geom, prefix)[k];
                component_at(geom, part.0.skip(prefix.len() as int)) == Some(part.1)
            } by {
                let part = dump(geom, prefix)[k];
                let rest = part.0.skip(prefix.len() as int);
                if geom.is_atomic() {
                    assert(rest.len() == 0);
                } else {
                    assert(rest =~= seq![(k + 1) as i64]);
                }
            }
        },
    }
}

proof fn member_paths_lead_to_components(
    members: Seq<Geometry>,
    n: nat,
    prefix: Seq<i64>,
    geom: Geometry,
)
    requires
        numberable(geom),
        geom matches Geometry::GeometryCollection(v) && v@ == members,
    ensures
        forall|k: int|
            0 <= k < dump_members(members, n, prefix).len() ==> {
                let part = #[trigger] dump_members(members, n, prefix)[k];
                component_at(geom, part.0.skip(prefix.len() as int)) == Some(part.1)
            },
    decreases members, n,
{
    if 0 < n <= members.len() {
        let before = dump_members(members, (n - 1) as nat, prefix);
        let below = prefix.push(n as i64);
        let added = dump(members[n - 1], below);
        let all = dump_members(members, n, prefix);
        member_paths_lead_to_components(members, (n - 1) as nat, prefix, geom);
        assert(numberable(members[n - 1]));
        paths_lead_to_components(members[n - 1], below);
        components_are_atomic(members[n - 1], below);
        assert forall|k: int| 0 <= k < all.len() implies {
            let part = #[trigger] all[k];
            component_at(geom, part.0.skip(prefix.len() as int)) == Some(part.1)
        } by {
            if k < before.len() {
                assert(all[k] == before[k]);
            } else {
                let part = added[k - before.len()];
                assert(all[k] == part);
                let rest = part.0.skip(prefix.len() as int);
                assert(part.0.take(below.len() as int) == below);
                assert(rest[0] == part.0.take(below.len() as int)[prefix.len() as int]);
                assert(rest[0] == n);
                assert(rest.skip(1) =~= part.0.skip(below.len() as int));
            }
        }
    }
}

/// No two components have the same path.
pub proof fn paths_are_distinct(geom: Geometry, prefix: Seq<i64>)
    requires
        numberable(geom),
    ensures
        forall|j: int, k: int|
            0 <= j < k < dump(geom, prefix).len() ==> (#[trigger] dump(geom, prefix)[j]).0 != (
            #[trigger] dump(geom, prefix)[k]).0,
    decreases geom, 0nat,
{
    match geom {
        Geometry::GeometryCollection(v) => {
            let all = dump_members(v@, v@.len(), prefix);
            member_paths_are_distinct(v@, v@.len(), prefix);
            assert(dump(geom, prefix) == all);
            assert forall|j: int, k: int| 0 <= j < k < dump(geom, prefix).len() implies (
            #[trigger] dump(geom, prefix)[j]).0 != (#[trigger] dump(geom, prefix)[k]).0 by {
                assert(all[j].0 != all[k].0);
            }
        },
        _ => {
            assert forall|j: int, k: int| 0 <= j < k < dump(geom, prefix).len() implies (
            #[trigger] dump(geom, prefix)[j]).0 != (#[trigger] dump(geom, prefix)[k]).0 by {
                assert(dump(geom, prefix)[j].0[prefix.len() as int] == j + 1);
                assert(dump(geom, prefix)[k].0[prefix.len() as int] == k + 1);
            }
        },
    }
}

proof fn member_paths_are_distinct(members: Seq<Geometry>, n: nat, prefix: Seq<i64>)
    requires
        members.len() <= i64::MAX,
        forall|i: int| 0 <= i < members.len() ==> numberable(#[trigger] members[i]),
    ensures
        forall|j: int, k: int|
            0 <= j < k < dump_members(members, n, prefix).len() ==> (#[trigger] dump_members(
                members,
                n,
                prefix,
            )[j]).0 != (#[trigger] dump_members(members, n, prefix)[k]).0,
    decreases members, n,
{
    if 0 < n <= members.len() {
        let before = dump_members(members, (n - 1) as nat, prefix);
        let below = prefix.push(n as i64);
        let added = dump(members[n - 1], below);
        let all = dump_members(members, n, prefix);
        member_paths_are_distinct(members, (n - 1) as nat, prefix);
        member_components_are_atomic(members, (n - 1) as nat, prefix);
        paths_are_distinct(members[n - 1], below);
        components_are_atomic(members[n - 1], below);
        assert forall|j: int, k: int| 0 <= j < k < all.len() implies (#[trigger] all[j]).0 != (
        #[trigger] all[k]).0 by {
            if k < before.len() {
                assert(all[j] == before[j] && all[k] == before[k]);
            } else if j >= before.len() {
                assert(all[j] == added[j - before.len()] && all[k] == added[k - before.len()]);
            } else {
                assert(all[j] == before[j] && all[k] == added[k - before.len()]);
                let part = added[k - before.len()];
                assert(part.0.take(below.len() as int) == below);
                assert(part.0[prefix.len() as int] == part.0.take(
                    below.len() as int,
                )[prefix.len() as int]);
                assert(part.0[prefix.len() as int] == n);
            }
        }
    }
}

/// Every path that leads to a component is in the dump.
pub proof fn every_component_is_dumped(geom: Geometry, prefix: Seq<i64>, path: Seq<i64>)
    requires
        numberable(geom),
        component_at(geom, path) is Some,
    ensures
        dump(geom, prefix).contains((prefix + path, component_at(geom, path)->0)),
    decreases geom,
{
    let part = component_at(geom, path)->0;
    match geom {
        Geometry::GeometryCollection(v) => {
            let n = path[0] as nat;
            let member = v@[n - 1];
            let below = prefix.push(path[0]);
            every_component_is_dumped(member, below, path.skip(1));
            assert(below + path.skip(1) =~= prefix + path);
            let inner = dump(member, below);
            let i = choose|i: int| 0 <= i < inner.len() && inner[i] == (prefix + path, part);
            let base = dump_members(v@, (n - 1) as nat, prefix);
            assert(dump_members(v@, n, prefix)[base.len() + i] == inner[i]);
            assert(dump_members(v@, n, prefix).contains((prefix + path, part)));
            dumped_members_stay(v@, n, v@.len(), prefix, (prefix + path, part));
        },
        _ => {
            if geom.is_atomic() {
                assert(prefix + path =~= prefix);
                assert(dump(geom, prefix)[0] == (prefix, geom));
            } else {
                let i = path[0] - 1;
                assert(prefix + path =~= prefix.push(path[0]));
                assert(dump(geom, prefix)[i] == (prefix + path, part));
            }
        },
    }
}

proof fn dumped_members_stay(
    members: Seq<Geometry>,
    n: nat,
    total: nat,
    prefix: Seq<i64>,
    part: (Seq<i64>, Geometry),
)
    requires
        n <= total <= members.len(),
        dump_members(members, n, prefix).contains(part),
    ensures
        dump_members(members, total, prefix).contains(part),
    decreases total,
{
    if n < total {
        dumped_members_stay(members, n, (total - 1) as nat, prefix, part);
        let before = dump_members(members, (total - 1) as nat, prefix);
        let i = choose|i: int| 0 <= i < before.len() && before[i] == part;
        assert(dump_members(members, total, prefix)[i] == part);
    }
}

/// The first path comes before the second: they part at a position where the first has the lesser number.
pub open spec fn comes_before(a: Seq<i64>, b: Seq<i64>) -> bool {
    exists|i: int| #[trigger] part_at(a, b, i)
}

/// The paths are alike up to a position, where the first has the lesser number.
pub open spec fn part_at(a: Seq<i64>, b: Seq<i64>, i: int) -> bool {
    &&& 0 <= i < a.len()
    &&& i < b.len()
    &&& a.take(i) == b.take(i)
    &&& a[i] < b[i]
}

/// The components come in the order of their paths: a member's components stand together, behind those of
/// the members before it.
pub proof fn components_come_in_order(geom: Geometry, prefix: Seq<i64>)
    requires
        numberable(geom),
    ensures
        forall|j: int, k: int|
            0 <= j < k < dump(geom, prefix).len() ==> comes_before(
                (#[trigger] dump(geom, prefix)[j]).0,
                (#[trigger] dump(geom, prefix)[k]).0,
            ),
    decreases geom, 0nat,
{
    match geom {
        Geometry::GeometryCollection(v) => {
            let all = dump_members(v@, v@.len(), prefix);
            member_components_come_in_order(v@, v@.len(), prefix);
            assert(dump(geom, prefix) == all);
            assert forall|j: int, k: int| 0 <= j < k < dump(geom, prefix).len() implies comes_before(
                (#[trigger] dump(geom, prefix)[j]).0,
                (#[trigger] dump(geom, prefix)[k]).0,
            ) by {
                assert(comes_before(all[j].0, all[k].0));
            }
        },
        _ => {
            assert forall|j: int, k: int| 0 <= j < k < dump(geom, prefix).len() implies comes_before(
                (#[trigger] dump(geom, prefix)[j]).0,
                (#[trigger] dump(geom, prefix)[k]).0,
            ) by {
                let a = dump(geom, prefix)[j].0;
                let b = dump(geom, prefix)[k].0;
                assert(a.take(prefix.len() as int) =~= b.take(prefix.len() as int));
                assert(part_at(a, b, prefix.len() as int));
            }
        },
    }
}

proof fn member_components_come_in_order(members: Seq<Geometry>, n: nat, prefix: Seq<i64>)
    requires
        members.len() <= i64::MAX,
        forall|i: int| 0 <= i < members.len() ==> numberable(#[trigger] members[i]),
    ensures
        forall|j: int, k: int|
            0 <= j < k < dump_members(members, n, prefix).len() ==> comes_before(
                (#[trigger] dump_members(members, n, prefix)[j]).0,
                (#[trigger] dump_members(members, n, prefix)[k]).0,
            ),
    decreases members, n,
{
    if 0 < n <= members.len() {
        let before = dump_members(members, (n - 1) as nat, prefix);
        let below = prefix.push(n as i64);
        let added = dump(members[n - 1], below);
        let all = dump_members(members, n, prefix);
        member_components_come_in_order(members, (n - 1) as nat, prefix);
        member_components_are_atomic(members, (n - 1) as nat, prefix);
        components_come_in_order(members[n - 1], below);
        components_are_atomic(members[n - 1], below);
        assert forall|j: int, k: int| 0 <= j < k < all.len() implies comes_before(
            (#[trigger] all[j]).0,
            (#[trigger] all[k]).0,
        ) by {
            if k < before.len() {
                assert(all[j] == before[j] && all[k] == before[k]);
            } else if j >= before.len() {
                assert(all[j] == added[j - before.len()] && all[k] == added[k - before.len()]);
            } else {
                assert(all[j] == before[j] && all[k] == added[k - before.len()]);
                let a = before[j].0;
                let b = added[k - before.len()].0;
                let p = prefix.len() as int;
                assert(b.take(below.len() as int) == below);
                assert(b[p] == b.take(below.len() as int)[p]);
                assert(b.take(p) =~= below.take(p)) by {
                    assert forall|i: int| 0 <= i < p implies b[i] == below[i] by {
                        assert(b.take(below.len() as int)[i] == below[i]);
                    }
                }
                assert(below.take(p) =~= prefix);
                assert(part_at(a, b, p));
            }
        }
    }
}

/// The function that lists a geometry's components.
#[derive(Debug, Clone, PartialEq, Eq, Hash)]
pub struct StDump;

/// The components of the geometry of one row; a null row stays null.
pub open spec fn dumped_row(row: Option<Geometry>) -> Option<Seq<(Seq<i64>, Geometry)>> {
    match row {
        Some(geom) => Some(dump(geom, Seq::empty())),
        None => None,
    }
}

/// A list of components per row, seen as sequences.
pub open spec fn component_row(row: Option<Vec<(Vec<i64>, Geometry)>>) -> Option<
    Seq<(Seq<i64>, Geometry)>,
> {
    match row {
        Some(parts) => Some(components(parts@)),
        None => None,
    }
}

/// A list of structs of a path (a list of integers) and a geometry.
pub open spec fn is_dump_type(dtype: DataType) -> bool {
    &&& dtype matches DataType::List(item)
    &&& *item matches DataType::Struct(fields)
    &&& fields@.len() == 2
    &&& fields@[0].name@ == "path"@
    &&& fields@[0].dtype matches DataType::List(n) && *n == DataType::Int64
    &&& fields@[1].name@ == "geom"@
    &&& fields@[1].dtype == DataType::Geometry
}

impl StDump {
    /// The name of the function.
    pub fn name(&self) -> (r: &'static str)
        ensures
            r@ == "st_dump"@,
    {
        "st_dump"
    }

    /// The components of each row's geometry.
    pub fn call(&self, rows: &Vec<Option<Geometry>>) -> (r: Vec<
        Option<Vec<(Vec<i64>, Geometry)>>,
    >)
        ensures
            r@.len() == rows@.len(),
            forall|i: int| 0 <= i < r@.len() ==> component_row(#[trigger] r@[i]) == dumped_row(rows@[i]),
    {
        let mut out: Vec<Option<Vec<(Vec<i64>, Geometry)>>> = Vec::new();
        let mut i: usize = 0;
        while i < rows.len()
            invariant
                i <= rows.len(),
                out@.len() == i,
                forall|k: int|
                    0 <= k < i ==> component_row(#[trigger] out@[k]) == dumped_row(rows@[k]),
            decreases rows.len() - i,
        {
            let root: Vec<i64> = Vec::new();
            assert(root@ =~= Seq::empty());
            match &rows[i] {
                Some(geom) => out.push(
                    Some(dump_geometry_parts_with_paths(geom, root.as_slice())),
                ),
                None => out.push(None),
            }
            i = i + 1;
        }
        out
    }

    /// The field that a call produces, once its argument has been checked to be a geometry.
    pub fn get_return_field(&self, validated: Result<(), DaftError>) -> (r: Result<Field, DaftError>)
        ensures
            match validated {
                Ok(_) => r matches Ok(f) && f.name@ == "st_dump"@ && is_dump_type(f.dtype),
                Err(e) => r == Err::<Field, DaftError>(e),
            },
    {
        validated?;
        let mut fields: Vec<Field> = Vec::new();
        fields.push(Field::new("path", DataType::List(Arc::new(DataType::Int64))));
        fields.push(Field::new("geom", DataType::Geometry));
        Ok(
            Field::new(
                self.name(),
                DataType::List(Arc::new(DataType::Struct(Arc::new(fields)))),
            ),
        )
    }

    /// What the function does.
    pub fn docstring(&self) -> (r: &'static str)
        ensures
            r@
                == "Returns the geometry's components as List[Struct{path, geom}]. Atomic geometries return one item with empty path; multi-geometries return one item per member with 1-based path indexes; GeometryCollections are recursively flattened with nested paths."@,
    {
        "Returns the geometry's components as List[Struct{path, geom}]. Atomic geometries return one item with empty path; multi-geometries return one item per member with 1-based path indexes; GeometryCollections are recursively flattened with nested paths."
    }
}

/// A call of `st_dump` on an expression.
#[must_use]
pub fn st_dump(geom: Arc<Expr>) -> (r: ScalarFn<StDump>)
    ensures
        r.func == StDump,
        r.inputs@ == seq![geom],
{
    ScalarFn::unary(StDump, geom)
}

} // verus!
