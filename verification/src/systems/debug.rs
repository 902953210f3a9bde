//! The debug overlay: the outlines of the colliders, for a renderer to draw.
//!
//! The overlay decides what is drawn, for which entity and in which colour.
//! It hands each line on as the rectangle it belongs to and the edge it is;
//! the end points are for the renderer to work out.

use crate::bitset::index_limit;
use crate::math::Vector3;
use crate::storage::TrackedStorage;
use crate::transform::Transform;
use vstd::prelude::*;

verus! {

/// The shape of a collider.
#[derive(Clone, Copy, Debug, PartialEq)]
pub enum Shape<S> {
    /// A circle of the given radius.
    Circle(S),
    /// A box of the given width, height and depth.
    Rectangle(S, S, S),
}

/// What the overlay reads of a collider: its shape, and whether it is a
/// sensor, which detects overlap without a physical response.
#[derive(Clone, Copy, Debug, PartialEq)]
pub struct PhysicsCollider<S> {
    pub shape: Shape<S>,
    pub sensor: bool,
}

/// The two colours of the overlay.
#[derive(Clone, Copy, Debug, PartialEq, Eq, Structural)]
pub enum DebugColor {
    /// The colour of sensors.
    Sensor,
    /// The colour of solid colliders.
    Solid,
}

/// An edge of a rectangle that lies in the plane of its centre, given with
/// the direction in which the line is drawn.
#[derive(Clone, Copy, Debug, PartialEq, Eq, Structural)]
pub enum Edge {
    /// From the upper left corner to the upper right one.
    Top,
    /// From the upper right corner to the lower right one.
    Right,
    /// From the lower right corner to the lower left one.
    Bottom,
    /// From the lower left corner to the upper left one.
    Left,
}

/// One line of the overlay: an edge of the rectangle of the given width and
/// height around `center`, in the given colour.
#[derive(Clone, Copy, Debug, PartialEq)]
pub struct DebugLine<S> {
    pub center: Vector3<S>,
    pub width: S,
    pub height: S,
    pub edge: Edge,
    pub color: DebugColor,
}

/// The drawing buffer: the lines drawn so far, in the order in which they
/// were drawn. Lines can only be added.
#[derive(Debug)]
pub struct DebugLines<S> {
    lines: Vec<DebugLine<S>>,
}

impl<S> View for DebugLines<S> {
    type V = Seq<DebugLine<S>>;

    closed spec fn view(&self) -> Seq<DebugLine<S>> {
        self.lines@
    }
}

impl<S: Copy> DebugLines<S> {
    /// An empty buffer.
    pub fn new() -> (buffer: Self)
        ensures
            buffer@ == Seq::<DebugLine<S>>::empty(),
    {
        DebugLines { lines: Vec::new() }
    }

    /// Adds `line` behind the lines drawn so far.
    pub fn draw_line(&mut self, line: DebugLine<S>)
        ensures
            final(self)@ == old(self)@.push(line),
    {
        self.lines.push(line);
    }

    /// The number of lines drawn so far.
    pub fn len(&self) -> (count: usize)
        ensures
            count == self@.len(),
    {
        self.lines.len()
    }

    /// The line number `i`, counted from 0 in the order of drawing; `None`
    /// beyond the last line.
    pub fn get(&self, i: usize) -> (line: Option<DebugLine<S>>)
        ensures
            i < self@.len() ==> line == Some(self@[i as int]),
            i >= self@.len() ==> line is None,
    {
        if i < self.lines.len() {
            Some(self.lines[i])
        } else {
            None
        }
    }
}

/// The colour in which a collider is outlined.
pub open spec fn outline_color<S>(collider: PhysicsCollider<S>) -> DebugColor {
    if collider.sensor {
        DebugColor::Sensor
    } else {
        DebugColor::Solid
    }
}

/// The lines that outline `collider` on an entity at `transform`: for a
/// rectangle its four edges around the translation, top, right, bottom and
/// left; for any other shape none.
pub open spec fn outline<S>(transform: Transform<S>, collider: PhysicsCollider<S>) -> Seq<
    DebugLine<S>,
> {
    match collider.shape {
        Shape::Rectangle(width, height, _) => {
            let color = outline_color(collider);
            let center = transform.translation;
            seq![
                DebugLine { center, width, height, edge: Edge::Top, color },
                DebugLine { center, width, height, edge: Edge::Right, color },
                DebugLine { center, width, height, edge: Edge::Bottom, color },
                DebugLine { center, width, height, edge: Edge::Left, color },
            ]
        },
        Shape::Circle(_) => Seq::<DebugLine<S>>::empty(),
    }
}

/// The outlines of the entities below `upto` that have both a presentation
/// transform and a collider, in ascending order of the entities.
pub open spec fn outlines<S>(
    transforms: Map<u32, Transform<S>>,
    colliders: Map<u32, PhysicsCollider<S>>,
    upto: nat,
) -> Seq<DebugLine<S>>
    decreases upto,
{
    if upto == 0 {
        Seq::<DebugLine<S>>::empty()
    } else {
        let id = (upto - 1) as u32;
        let earlier = outlines(transforms, colliders, (upto - 1) as nat);
        if transforms.dom().contains(id) && colliders.dom().contains(id) {
            earlier + outline(transforms[id], colliders[id])
        } else {
            earlier
        }
    }
}

/// Entities without a presentation transform have no outline.
proof fn lemma_outlines_beyond<S>(
    transforms: Map<u32, Transform<S>>,
    colliders: Map<u32, PhysicsCollider<S>>,
    from: nat,
    upto: nat,
)
    requires
        from <= upto <= u32::MAX + 1,
        forall|id: u32| transforms.dom().contains(id) ==> id < from,
    ensures
        outlines(transforms, colliders, upto) == outlines(transforms, colliders, from),
    decreases upto,
{
    if upto > from {
        lemma_outlines_beyond(transforms, colliders, from, (upto - 1) as nat);
    }
}

/// The unit of work that draws the outlines of the colliders.
#[derive(Clone, Copy, Debug)]
pub struct DebugSystem;

impl Default for DebugSystem {
    fn default() -> (system: Self) {
        DebugSystem
    }
}

impl DebugSystem {
    /// Provides what the system needs: a drawing buffer, empty.
    pub fn setup<S: Copy>(&mut self) -> (debug_lines: DebugLines<S>)
        ensures
            debug_lines@ == Seq::<DebugLine<S>>::empty(),
    {
        DebugLines::new()
    }

    /// Draws the outline of one collider on an entity at `transform`.
    pub fn draw_outline<S: Copy>(
        &self,
        transform: &Transform<S>,
        collider: &PhysicsCollider<S>,
        debug_lines: &mut DebugLines<S>,
    )
        ensures
            final(debug_lines)@ == old(debug_lines)@ + outline(*transform, *collider),
    {
        let color = if collider.sensor {
            DebugColor::Sensor
        } else {
            DebugColor::Solid
        };
        let center = *transform.translation();
        match collider.shape {
            Shape::Rectangle(width, height, _) => {
                let top = DebugLine { center, width, height, edge: Edge::Top, color };
                let right = DebugLine { center, width, height, edge: Edge::Right, color };
                let bottom = DebugLine { center, width, height, edge: Edge::Bottom, color };
                let left = DebugLine { center, width, height, edge: Edge::Left, color };
                debug_lines.draw_line(top);
                debug_lines.draw_line(right);
                debug_lines.draw_line(bottom);
                debug_lines.draw_line(left);
            },
            _ => {},
        }
        assert(debug_lines@ =~= old(debug_lines)@ + outline(*transform, *collider));
    }

    /// One pass. It adds to `debug_lines` the outline of every entity that has
    /// both a presentation transform and a collider, in ascending order of
    /// the entities. It reads the two storages and writes neither.
    pub fn run<S: Copy>(
        &mut self,
        transforms: &TrackedStorage<Transform<S>>,
        physics_colliders: &TrackedStorage<PhysicsCollider<S>>,
        debug_lines: &mut DebugLines<S>,
    )
        requires
            transforms.wf(),
            physics_colliders.wf(),
        ensures
            final(debug_lines)@ == old(debug_lines)@ + outlines(
                transforms.components(),
                physics_colliders.components(),
                index_limit(),
            ),
    {
        let ghost drawn = debug_lines@;
        let bound = transforms.upper_bound();
        proof {
            transforms.lemma_wf();
        }
        let mut id: u32 = 0;
        while id < bound
            invariant
                id <= bound,
                debug_lines@ == drawn + outlines(
                    transforms.components(),
                    physics_colliders.components(),
                    id as nat,
                ),
            decreases bound - id,
        {
            let ghost at_entry = debug_lines@;
            match transforms.get(id) {
                Some(transform) => {
                    match physics_colliders.get(id) {
                        Some(physics_collider) => {
                            self.draw_outline(transform, physics_collider, debug_lines);
                        },
                        None => {},
                    }
                },
                None => {},
            }
            proof {
                assert(debug_lines@ =~= drawn + outlines(
                    transforms.components(),
                    physics_colliders.components(),
                    (id + 1) as nat,
                ));
            }
            id += 1;
        }
        proof {
            lemma_outlines_beyond(
                transforms.components(),
                physics_colliders.components(),
                bound as nat,
                index_limit(),
            );
        }
    }
}

} // verus!
