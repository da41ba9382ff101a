//! Geometric records and the decoders that read them out of a field table.
use vstd::prelude::*;
use crate::fields::{FieldTable, value_or};

verus! {

/// A point in space.
#[derive(Clone, Copy, Debug, PartialEq)]
pub struct Point<V> {
    pub x: V,
    pub y: V,
    pub z: V,
}

/// A segment from `start` to `end`.
#[derive(Clone, Copy, Debug, PartialEq)]
pub struct Line<V> {
    pub start: Point<V>,
    pub end: Point<V>,
}

/// A face with four vertices, in the order that defines its winding.
#[derive(Clone, Copy, Debug, PartialEq)]
pub struct E3DFace<V> {
    pub points: [Point<V>; 4],
}

/// One decoded entity.
#[derive(Clone, Copy, Debug, PartialEq)]
pub enum Entity<V> {
    Point(Point<V>),
    Line(Line<V>),
    Face(E3DFace<V>),
}

/// Vertex `v` of an entity: x under group code 10 + v, y under 20 + v and
/// z under 30 + v; a code that is absent reads as `absent`.
pub open spec fn vertex_of<V>(table: Map<int, V>, v: int, absent: V) -> Point<V> {
    Point {
        x: value_or(table, 10 + v, absent),
        y: value_or(table, 20 + v, absent),
        z: value_or(table, 30 + v, absent),
    }
}

/// A POINT: its one vertex.
pub open spec fn point_of<V>(table: Map<int, V>, absent: V) -> Point<V> {
    vertex_of(table, 0, absent)
}

/// A LINE: vertex 0 is its start, vertex 1 its end.
pub open spec fn line_of<V>(table: Map<int, V>, absent: V) -> Line<V> {
    Line { start: vertex_of(table, 0, absent), end: vertex_of(table, 1, absent) }
}

/// The vertices of a 3DFACE, in order.
pub open spec fn face_vertices<V>(table: Map<int, V>, absent: V) -> Seq<Point<V>> {
    seq![
        vertex_of(table, 0, absent),
        vertex_of(table, 1, absent),
        vertex_of(table, 2, absent),
        vertex_of(table, 3, absent),
    ]
}

/// Reads vertex `v` out of the table.
fn read_vertex<V: Copy>(table: &FieldTable<V>, v: i32, absent: V) -> (p: Point<V>)
    requires
        0 <= v <= 3,
    ensures
        p == vertex_of(table@, v as int, absent),
{
    Point {
        x: table.get_or(10 + v, absent),
        y: table.get_or(20 + v, absent),
        z: table.get_or(30 + v, absent),
    }
}

/// Decodes a POINT from its fields.
pub fn parse_point<V: Copy>(table: &FieldTable<V>, absent: V) -> (p: Point<V>)
    ensures
        p == point_of(table@, absent),
{
    read_vertex(table, 0, absent)
}

/// Decodes a LINE from its fields.
pub fn parse_line<V: Copy>(table: &FieldTable<V>, absent: V) -> (l: Line<V>)
    ensures
        l == line_of(table@, absent),
{
    Line { start: read_vertex(table, 0, absent), end: read_vertex(table, 1, absent) }
}

/// Decodes a 3DFACE from its fields.
pub fn parse_3dface<V: Copy>(table: &FieldTable<V>, absent: V) -> (f: E3DFace<V>)
    ensures
        f.points@ == face_vertices(table@, absent),
{
    let points = [
        read_vertex(table, 0, absent),
        read_vertex(table, 1, absent),
        read_vertex(table, 2, absent),
        read_vertex(table, 3, absent),
    ];
    let f = E3DFace { points };
    assert(f.points@ =~= face_vertices(table@, absent));
    f
}

/// A coordinate whose group code is absent from the table reads as the
/// default, in every decoder; decoding never fails.
pub proof fn lemma_absent_fields_read_default<V>(table: Map<int, V>, absent: V, v: int)
    requires
        0 <= v <= 3,
    ensures
        !table.contains_key(10 + v) ==> vertex_of(table, v, absent).x == absent,
        !table.contains_key(20 + v) ==> vertex_of(table, v, absent).y == absent,
        !table.contains_key(30 + v) ==> vertex_of(table, v, absent).z == absent,
        v == 0 ==> point_of(table, absent) == vertex_of(table, v, absent),
        v == 0 ==> line_of(table, absent).start == vertex_of(table, v, absent),
        v == 1 ==> line_of(table, absent).end == vertex_of(table, v, absent),
        face_vertices(table, absent)[v] == vertex_of(table, v, absent),
        table == Map::<int, V>::empty() ==> vertex_of(table, v, absent) == (Point {
            x: absent,
            y: absent,
            z: absent,
        }),
{
}

} // verus!
