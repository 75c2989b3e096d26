//! Scene container and the stable index into its bounded-primitives array.
//!
//! A scene owns the bounded primitives (indexed by the hierarchy's leaves),
//! the unbounded primitives, the lights and a sky color. It is generic over
//! the primitive, box, light and color types, which carry the floating-point
//! geometry and therefore live with the renderer, not here.

use vstd::prelude::*;
use crate::bvh::{kept_objects, root_leaves, BVHNode, BVHTree};

verus! {

/// Index into the scene's bounded-primitives array. The hierarchy's leaves
/// store these; they stay valid because the array is never reordered after
/// the hierarchy is built.
#[derive(Clone, Copy, Debug, PartialEq, Eq, Structural)]
pub struct SceneObjectIndex(pub usize);

impl From<usize> for SceneObjectIndex {
    fn from(i: usize) -> (r: SceneObjectIndex) {
        SceneObjectIndex(i)
    }
}

impl vstd::std_specs::convert::FromSpecImpl<usize> for SceneObjectIndex {
    open spec fn obeys_from_spec() -> bool {
        true
    }

    open spec fn from_spec(i: usize) -> SceneObjectIndex {
        SceneObjectIndex(i)
    }
}

impl From<SceneObjectIndex> for usize {
    fn from(i: SceneObjectIndex) -> (r: usize) {
        i.0
    }
}

impl vstd::std_specs::convert::FromSpecImpl<SceneObjectIndex> for usize {
    open spec fn obeys_from_spec() -> bool {
        true
    }

    open spec fn from_spec(i: SceneObjectIndex) -> usize {
        i.0
    }
}

/// A primitive of the scene: a shape paired with the material shading it.
#[derive(Debug)]
pub struct SceneObject<S, M> {
    pub material: M,
    pub shape: S,
}

impl<S, M> SceneObject<S, M> {
    /// Pairs a shape with a material.
    pub fn new(shape: S, material: M) -> (obj: SceneObject<S, M>)
        ensures
            obj.shape == shape,
            obj.material == material,
    {
        SceneObject { material, shape }
    }
}


/// Scene description before the hierarchy is built: the primitives in input
/// order, the lights, and the sky color.
pub struct SceneBuilder<O, L, C> {
    pub objects: Vec<O>,
    pub lights: Vec<L>,
    pub skylight: C,
}

impl<O, L, C> SceneBuilder<O, L, C> {
    /// Assembles the scene: the primitives are split by whether they have a
    /// bounding box (`boxes[i]` carries a grouping key and the box of object
    /// `i`, or nothing for an unbounded one) and the hierarchy is built over
    /// the bounded ones with the supplied box union.
    pub fn build<B: Copy, F: Fn(B, B) -> B + Copy>(
        self,
        boxes: &Vec<Option<(u64, B)>>,
        union: F,
    ) -> (s: Scene<O, B, L, C>)
        requires
            boxes@.len() == self.objects@.len(),
            forall|a: B, b: B| #[trigger] call_requires(union, (a, b)),
        ensures
            s.wf(),
            s.spec_bounded() == kept_objects(self.objects@, boxes@, true),
            s.spec_unbounded() == kept_objects(self.objects@, boxes@, false),
            s.spec_lights() == self.lights@,
            s.spec_skylight() == self.skylight,
    {
        let (bvh, bounded_objects, unbounded_objects) = BVHTree::from_scene_objects(
            self.objects,
            boxes,
            union,
        );
        Scene { bounded_objects, bvh, unbounded_objects, lights: self.lights, skylight: self.skylight }
    }

    /// Builder from optional parts; an absent part becomes empty, an absent
    /// sky the given fallback.
    pub fn from_maybe_component(
        objs: Option<Vec<O>>,
        lights: Option<Vec<L>>,
        skylight: Option<C>,
        fallback_skylight: C,
    ) -> (b: SceneBuilder<O, L, C>)
        ensures
            b.objects@ == (match objs {
                Some(v) => v@,
                None => Seq::<O>::empty(),
            }),
            b.lights@ == (match lights {
                Some(v) => v@,
                None => Seq::<L>::empty(),
            }),
            b.skylight == (match skylight {
                Some(c) => c,
                None => fallback_skylight,
            }),
    {
        SceneBuilder {
            objects: match objs {
                Some(v) => v,
                None => Vec::new(),
            },
            lights: match lights {
                Some(v) => v,
                None => Vec::new(),
            },
            skylight: match skylight {
                Some(c) => c,
                None => fallback_skylight,
            },
        }
    }
}

/// The scene a render works on, immutable once built: the bounded primitives
/// (indexed by the hierarchy's leaves), the hierarchy itself, the unbounded
/// primitives, the lights, and the sky color.
pub struct Scene<O, B, L, C> {
    bounded_objects: Vec<O>,
    bvh: BVHTree<B>,
    unbounded_objects: Vec<O>,
    lights: Vec<L>,
    skylight: C,
}

impl<O, B: Copy, L, C> Scene<O, B, L, C> {
    /// The bounded primitives, in the order the hierarchy's leaves index.
    pub closed spec fn spec_bounded(&self) -> Seq<O> {
        self.bounded_objects@
    }

    /// The primitives without a bounding box.
    pub closed spec fn spec_unbounded(&self) -> Seq<O> {
        self.unbounded_objects@
    }

    /// The hierarchy's node array.
    pub closed spec fn spec_bvh(&self) -> Seq<BVHNode<B>> {
        self.bvh@
    }

    /// The lights.
    pub closed spec fn spec_lights(&self) -> Seq<L> {
        self.lights@
    }

    /// The sky color.
    pub closed spec fn spec_skylight(&self) -> C {
        self.skylight
    }

    /// The hierarchy is well formed and its leaves index exactly the bounded
    /// primitives, so a query result can always be looked up.
    pub open spec fn wf(&self) -> bool {
        &&& crate::bvh::wf_tree(self.spec_bvh())
        &&& forall|x: SceneObjectIndex|
            #[trigger] root_leaves(self.spec_bvh()).contains(x) <==> 0 <= x.0
                < self.spec_bounded().len()
    }

    /// The bounded primitives.
    pub fn bounded(&self) -> (r: &Vec<O>)
        ensures
            r@ == self.spec_bounded(),
    {
        &self.bounded_objects
    }

    /// The unbounded primitives.
    pub fn unbounded(&self) -> (r: &Vec<O>)
        ensures
            r@ == self.spec_unbounded(),
    {
        &self.unbounded_objects
    }

    /// The hierarchy over the bounded primitives.
    pub fn bvh(&self) -> (r: &BVHTree<B>)
        ensures
            r@ == self.spec_bvh(),
            self.wf() ==> r.wf(),
    {
        &self.bvh
    }

    /// The lights.
    pub fn lights(&self) -> (r: &Vec<L>)
        ensures
            r@ == self.spec_lights(),
    {
        &self.lights
    }

    /// The sky color, by reference.
    pub fn skylight(&self) -> (r: &C)
        ensures
            *r == self.spec_skylight(),
    {
        &self.skylight
    }

    /// The sky color, writable: the one part of a scene that may be adjusted
    /// after the build, since the hierarchy does not depend on it.
    pub fn skylight_mut(&mut self) -> (r: &mut C)
        ensures
            *r == old(self).spec_skylight(),
            final(self).spec_skylight() == *final(r),
            final(self).spec_bounded() == old(self).spec_bounded(),
            final(self).spec_unbounded() == old(self).spec_unbounded(),
            final(self).spec_bvh() == old(self).spec_bvh(),
            final(self).spec_lights() == old(self).spec_lights(),
    {
        &mut self.skylight
    }
}

impl<O, B: Copy, L, C: Copy> Scene<O, B, L, C> {
    /// The sky color, by value.
    pub fn get_skylight(&self) -> (r: C)
        ensures
            r == self.spec_skylight(),
    {
        self.skylight
    }
}

} // verus!
