//! The in-memory level description: vertices, entities and the level record.

use vstd::prelude::*;
use crate::raster::Pixel;

verus! {

/// A polygon vertex. Coordinates come from the contour tracer's integer
/// index space; the uniform scale factor is applied only when a level is
/// written out, so the core works on exact integers throughout.
#[derive(Clone, Copy, PartialEq, Eq, Structural, Debug)]
pub struct Point {
    pub x: i32,
    pub y: i32,
}

impl Point {
    pub fn new(x: i32, y: i32) -> (p: Point)
        ensures
            p.x == x,
            p.y == y,
    {
        Point { x, y }
    }
}

/// Projectile kinds a player entity may carry in its magazine.
#[derive(Clone, Copy, PartialEq, Eq, Structural, Debug)]
pub enum Bombs {
    Empty,
    Bomb,
    Grenade,
}

/// A level entity. The converter only emits `Paint` entities; `Player` is
/// part of the level vocabulary and is kept for completeness.
///
/// `fill_color` packs the red, green and blue channels as
/// `red * 65536 + green * 256 + blue`; the alpha channel is kept separately
/// and becomes an opacity in `0..=1` only at serialization time.
pub enum Entity {
    Player { is_static: bool, angle: i32, x: i32, y: i32, magazine: Vec<Bombs> },
    Paint { fill_color: i32, alpha: u8, vertices: Vec<Point> },
}

/// A level: a name, two timing slots and the entity list.
pub struct Level {
    pub name: String,
    pub timings: [i32; 2],
    pub entities: Vec<Entity>,
    pub format_version: u8,
}

impl Level {
    pub fn new(name: String, timings: [i32; 2]) -> (level: Level)
        ensures
            level.name == name,
            level.timings == timings,
            level.entities@ == Seq::<Entity>::empty(),
            level.format_version == 0,
    {
        Level { name, timings, entities: Vec::new(), format_version: 0 }
    }

    pub fn push(&mut self, entity: Entity)
        ensures
            final(self).entities@ == old(self).entities@.push(entity),
            final(self).name == old(self).name,
            final(self).timings == old(self).timings,
            final(self).format_version == old(self).format_version,
    {
        self.entities.push(entity);
    }
}

/// The 24-bit packed color of a pixel: `red * 65536 + green * 256 + blue`.
/// The alpha channel is never packed.
pub open spec fn packed_color(p: Pixel) -> int {
    p.r * 65536 + p.g * 256 + p.b
}

/// The paint entities assembled from (polygon, color) pairs, in order:
/// a pair whose color has alpha 0 is dropped, every other pair becomes a
/// paint entity with the packed color, the alpha, and the vertices as
/// they are.
pub open spec fn paints_of(pairs: Seq<(Vec<Point>, Pixel)>) -> Seq<Entity>
    decreases pairs.len(),
{
    if pairs.len() == 0 {
        Seq::empty()
    } else {
        let rest = paints_of(pairs.subrange(1, pairs.len() as int));
        if pairs[0].1.a == 0 {
            rest
        } else {
            seq![Entity::Paint {
                fill_color: packed_color(pairs[0].1) as i32,
                alpha: pairs[0].1.a,
                vertices: pairs[0].0,
            }] + rest
        }
    }
}

/// Appends one paint entity per (polygon, color) pair to the level,
/// skipping fully transparent colors, in the order the pairs come.
pub fn add_paint_entities(level: &mut Level, polygons: Vec<(Vec<Point>, Pixel)>)
    ensures
        final(level).entities@ == old(level).entities@ + paints_of(polygons@),
        final(level).name == old(level).name,
        final(level).timings == old(level).timings,
        final(level).format_version == old(level).format_version,
{
    let ghost full = polygons@;
    let mut polygons = polygons;
    proof {
        assert(old(level).entities@ + Seq::<Entity>::empty() =~= old(level).entities@);
    }
    while polygons.len() > 0
        invariant
            level.name == old(level).name,
            level.timings == old(level).timings,
            level.format_version == old(level).format_version,
            old(level).entities@ + paints_of(full)
                == level.entities@ + paints_of(polygons@),
        decreases polygons@.len(),
    {
        let ghost pre = polygons@;
        let (vertices, color) = polygons.remove(0);
        proof {
            assert(polygons@ =~= pre.subrange(1, pre.len() as int));
            assert(pre[0] == (vertices, color));
        }
        if color.a != 0 {
            let fill_color: i32 =
                color.r as i32 * 65536 + color.g as i32 * 256 + color.b as i32;
            let ghost ents = level.entities@;
            let entity = Entity::Paint { fill_color, alpha: color.a, vertices };
            proof {
                assert(paints_of(pre) == seq![entity] + paints_of(polygons@));
                assert(ents + (seq![entity] + paints_of(polygons@))
                    =~= ents.push(entity) + paints_of(polygons@));
            }
            level.push(entity);
        } else {
            proof {
                assert(paints_of(pre) == paints_of(polygons@));
            }
        }
    }
    proof {
        assert(paints_of(polygons@) =~= Seq::<Entity>::empty());
        assert(level.entities@ + Seq::<Entity>::empty() =~= level.entities@);
    }
}

} // verus!
