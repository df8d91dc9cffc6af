//! The arena that owns every hittable of a scene. Hittables refer to each
//! other by their index in the arena; index 0 always holds the default
//! hittable, which never reports a hit.

use vstd::prelude::*;
use crate::bvh::BVHNode;
use crate::rng::random_usize_below;

verus! {

/// The hittable that stands at index 0 of every arena: it has no geometry.
#[derive(Clone, Copy, Debug, PartialEq, Eq, Structural)]
pub struct DefaultHittable {}

/// A flat list of hittables, given by their arena indices.
#[derive(Debug)]
pub struct HittableList {
    pub hittable_indices: Vec<usize>,
}

impl HittableList {
    /// Wraps a list of arena indices.
    pub fn from_list(hittable_indices: Vec<usize>) -> (list: HittableList)
        ensures
            list.hittable_indices@ == hittable_indices@,
    {
        HittableList { hittable_indices }
    }

    /// The number of members of the list.
    pub fn len(&self) -> (n: usize)
        ensures
            n == self.hittable_indices@.len(),
    {
        self.hittable_indices.len()
    }

    /// The member at `position` of the list, the position that was drawn.
    pub fn member_at(&self, position: usize) -> (member: usize)
        requires
            position < self.hittable_indices@.len(),
        ensures
            member == self.hittable_indices@[position as int],
    {
        self.hittable_indices[position]
    }

    /// Picks the member through which a random direction toward the list is
    /// sampled: `gen_range(0..len)` on the thread generator selects a position,
    /// and `member_at` returns the member there. An empty list has no member
    /// to pick, which the `requires` rules out.
    pub fn random_member(&self, rng: &mut rand::rngs::ThreadRng) -> (member: usize)
        requires
            self.hittable_indices@.len() > 0,
        ensures
            exists|position: int|
                0 <= position < self.hittable_indices@.len() && #[trigger] self.hittable_indices@[position]
                    == member,
            self.hittable_indices@.contains(member),
    {
        let position = random_usize_below(rng, self.hittable_indices.len());
        self.member_at(position)
    }
}

/// A hittable seen from the other side: it forwards to the model at
/// `model_index` and reverses which face counts as the front.
#[derive(Clone, Copy, Debug, PartialEq, Eq, Structural)]
pub struct FlipFace {
    pub model_index: usize,
}

impl FlipFace {
    /// Wraps the model stored at `model_index`.
    pub fn new(model_index: usize) -> (flipped: FlipFace)
        ensures
            flipped.model_index == model_index,
    {
        FlipFace { model_index }
    }
}

/// One entry of the arena. The structural hittables are spelled out; every
/// hittable that carries geometry of its own is a `Geometry` payload of the
/// caller's type.
pub enum HittableEnum<G> {
    DefaultHittable(DefaultHittable),
    BVHNode(BVHNode),
    HittableList(HittableList),
    FlipFace(FlipFace),
    Geometry(G),
}

/// The arena of hittables, with the entry points of the scene: the root of the
/// bounding-volume hierarchy and the root of the list of lights.
pub struct HittableService<G> {
    bvh_root_index: usize,
    lights_root_index: usize,
    hittables: Vec<HittableEnum<G>>,
}

impl<G> HittableService<G> {
    /// The entries of the arena, in index order.
    pub closed spec fn entries(self) -> Seq<HittableEnum<G>> {
        self.hittables@
    }

    /// The index at which rendering enters the scene.
    pub closed spec fn bvh_root(self) -> usize {
        self.bvh_root_index
    }

    /// The index of the hittable that gathers the lights (0 when there are none).
    pub closed spec fn lights_root(self) -> usize {
        self.lights_root_index
    }

    /// Index 0 holds the default hittable, so the arena is never empty.
    #[verifier::type_invariant]
    closed spec fn starts_with_default(self) -> bool {
        &&& self.hittables@.len() >= 1
        &&& self.hittables@[0] is DefaultHittable
    }

    /// An arena that holds only the default hittable; both roots are 0.
    pub fn new() -> (service: HittableService<G>)
        ensures
            service.entries() =~= seq![HittableEnum::DefaultHittable(DefaultHittable {})],
            service.bvh_root() == 0,
            service.lights_root() == 0,
    {
        let mut hittables: Vec<HittableEnum<G>> = Vec::new();
        hittables.push(HittableEnum::DefaultHittable(DefaultHittable {}));
        HittableService { bvh_root_index: 0, lights_root_index: 0, hittables }
    }

    /// Appends a hittable and returns the index at which it now stands. The
    /// entries already stored keep their indices and values.
    pub fn add_hittable(&mut self, new_hittable: HittableEnum<G>) -> (index: usize)
        ensures
            final(self).entries() == old(self).entries().push(new_hittable),
            index == old(self).entries().len(),
            index >= 1,
            final(self).bvh_root() == old(self).bvh_root(),
            final(self).lights_root() == old(self).lights_root(),
    {
        proof { use_type_invariant(&*self); }
        let mut taken: HittableService<G> = HittableService::new();
        std::mem::swap(self, &mut taken);
        proof { use_type_invariant(&taken); }
        let HittableService { bvh_root_index, lights_root_index, mut hittables } = taken;
        hittables.push(new_hittable);
        let index = hittables.len() - 1;
        *self = HittableService { bvh_root_index, lights_root_index, hittables };
        index
    }

    /// The number of entries.
    pub fn len(&self) -> (n: usize)
        ensures
            n == self.entries().len(),
            n >= 1,
    {
        proof { use_type_invariant(self); }
        self.hittables.len()
    }

    /// The entry at `index`, which must exist.
    pub fn get(&self, index: usize) -> (entry: &HittableEnum<G>)
        requires
            index < self.entries().len(),
        ensures
            *entry == self.entries()[index as int],
    {
        &self.hittables[index]
    }

    /// Whether the scene has a list of lights to sample toward.
    pub fn has_lights(&self) -> (b: bool)
        ensures
            b == (self.lights_root() != 0),
    {
        self.lights_root_index != 0
    }

    pub fn get_bvh_root_index(&self) -> (index: usize)
        ensures
            index == self.bvh_root(),
    {
        self.bvh_root_index
    }

    pub fn set_bvh_root_index(&mut self, index: usize)
        ensures
            final(self).bvh_root() == index,
            final(self).lights_root() == old(self).lights_root(),
            final(self).entries() == old(self).entries(),
    {
        proof { use_type_invariant(&*self); }
        self.bvh_root_index = index;
    }

    pub fn get_lights_root_index(&self) -> (index: usize)
        ensures
            index == self.lights_root(),
    {
        self.lights_root_index
    }

    pub fn set_lights_root_index(&mut self, index: usize)
        ensures
            final(self).lights_root() == index,
            final(self).bvh_root() == old(self).bvh_root(),
            final(self).entries() == old(self).entries(),
    {
        proof { use_type_invariant(&*self); }
        self.lights_root_index = index;
    }
}

/// Reading back what was added: after `add_hittable`, the entry at the index
/// it returned (the former length) is the hittable that was added, every entry
/// that stood before reads back unchanged at its index, and the arena has
/// grown by exactly one.
pub proof fn lemma_read_after_add<G>(
    before: HittableService<G>,
    after: HittableService<G>,
    added: HittableEnum<G>,
)
    requires
        after.entries() == before.entries().push(added),
    ensures
        after.entries().len() == before.entries().len() + 1,
        after.entries()[before.entries().len() as int] == added,
        forall|j: int|
            0 <= j < before.entries().len() ==> #[trigger] after.entries()[j] == before.entries()[j],
{
}

} // verus!
