//! Scene assembly: which scene an index selects, the even image height, and
//! the acceleration structures that close every scene.

use vstd::prelude::*;
use crate::bvh::{BVHNode, extends, indices_in_bounds, node_ok, reach, region_ok};
use crate::hittable_service::{HittableEnum, HittableList, HittableService};

verus! {

/// The scenes that can be built, in the order of their selection index.
#[derive(Clone, Copy, Debug, PartialEq, Eq, Structural)]
pub enum SceneKind {
    RandomSpheres,
    RandomMovingSpheres,
    TwoSpheres,
    TwoPerlinSpheres,
    Earth,
    SimpleLight,
    EmptyCornellBox,
    CornellBoxTwoDiffuseBoxes,
    CornellBoxTwoSmokeBoxes,
    CornellBoxDiffuseMetalBoxes,
    FinalSceneBook2,
    FinalSceneBook3,
}

/// The scene that `scene_index` selects; there are twelve, numbered from 0.
pub open spec fn spec_scene_kind(scene_index: int) -> Option<SceneKind> {
    if scene_index == 0 {
        Some(SceneKind::RandomSpheres)
    } else if scene_index == 1 {
        Some(SceneKind::RandomMovingSpheres)
    } else if scene_index == 2 {
        Some(SceneKind::TwoSpheres)
    } else if scene_index == 3 {
        Some(SceneKind::TwoPerlinSpheres)
    } else if scene_index == 4 {
        Some(SceneKind::Earth)
    } else if scene_index == 5 {
        Some(SceneKind::SimpleLight)
    } else if scene_index == 6 {
        Some(SceneKind::EmptyCornellBox)
    } else if scene_index == 7 {
        Some(SceneKind::CornellBoxTwoDiffuseBoxes)
    } else if scene_index == 8 {
        Some(SceneKind::CornellBoxTwoSmokeBoxes)
    } else if scene_index == 9 {
        Some(SceneKind::CornellBoxDiffuseMetalBoxes)
    } else if scene_index == 10 {
        Some(SceneKind::FinalSceneBook2)
    } else if scene_index == 11 {
        Some(SceneKind::FinalSceneBook3)
    } else {
        None
    }
}

/// Builds scenes; the index-level decisions of scene building live here.
pub struct SceneBuilder {}

impl SceneBuilder {
    /// The scene selected by `scene_index`, or `None` for an index past the
    /// last scene (a choice that building a scene refuses).
    pub fn scene_kind(scene_index: usize) -> (kind: Option<SceneKind>)
        ensures
            kind == spec_scene_kind(scene_index as int),
            kind is Some <==> scene_index <= 11,
            kind matches Some(k) ==> k as int == scene_index,
    {
        match scene_index {
            0 => Some(SceneKind::RandomSpheres),
            1 => Some(SceneKind::RandomMovingSpheres),
            2 => Some(SceneKind::TwoSpheres),
            3 => Some(SceneKind::TwoPerlinSpheres),
            4 => Some(SceneKind::Earth),
            5 => Some(SceneKind::SimpleLight),
            6 => Some(SceneKind::EmptyCornellBox),
            7 => Some(SceneKind::CornellBoxTwoDiffuseBoxes),
            8 => Some(SceneKind::CornellBoxTwoSmokeBoxes),
            9 => Some(SceneKind::CornellBoxDiffuseMetalBoxes),
            10 => Some(SceneKind::FinalSceneBook2),
            11 => Some(SceneKind::FinalSceneBook3),
            _ => None,
        }
    }

    /// Whether the scene is rendered square rather than in the configured
    /// aspect ratio: every scene after the simple-light scene is.
    pub fn uses_square_aspect(scene_index: usize) -> (square: bool)
        ensures
            square == (5 < scene_index),
    {
        5 < scene_index
    }

    /// Rounds an image height up to the next even number.
    pub fn even_image_height(image_height: usize) -> (height: usize)
        requires
            image_height < usize::MAX,
        ensures
            height == image_height + image_height % 2,
            height % 2 == 0,
            image_height <= height <= image_height + 1,
    {
        image_height + image_height % 2
    }
}

/// Scene selection follows the declaration order of `SceneKind`: index `n`
/// selects the variant declared `n`-th (counting from 0), every variant is
/// selected by its own position, and no index past the last variant selects
/// anything.
pub proof fn lemma_scene_index_is_declaration_order(n: int, kind: SceneKind)
    ensures
        0 <= n <= 11 ==> (spec_scene_kind(n) matches Some(k) && k as int == n),
        !(0 <= n <= 11) ==> spec_scene_kind(n) is None,
        spec_scene_kind(kind as int) == Some(kind),
        0 <= kind as int <= 11,
{
}

/// Closes a scene: builds the hierarchy over `hittable_index_list` (when it is
/// not empty), adds its root and makes it the entry point; then gathers
/// `light_index_list` (when it is not empty) into a list, adds it right after
/// and makes it the root of the lights. Nothing else is added after the root.
/// `keys` and `has_box` are indexed by arena index: the sort key triple and
/// whether the hittable has a bounding box; a listed hittable without one
/// cannot be placed in the hierarchy and is excluded.
pub fn build_acceleration_structures<G>(
    rng: &mut rand_chacha::ChaCha20Rng,
    hittable_service: &mut HittableService<G>,
    keys: &Vec<(i64, i64, i64)>,
    has_box: &Vec<bool>,
    hittable_index_list: Vec<usize>,
    light_index_list: Vec<usize>,
)
    requires
        indices_in_bounds(
            hittable_index_list@,
            0,
            hittable_index_list@.len() as int,
            old(hittable_service).entries().len() as int,
            keys@.len() as int,
            has_box@,
        ),
    ensures
        extends(old(hittable_service).entries(), final(hittable_service).entries()),
        hittable_index_list@.len() == 0 ==> {
            &&& final(hittable_service).bvh_root() == old(hittable_service).bvh_root()
            &&& final(hittable_service).entries().len() == old(hittable_service).entries().len()
                + if light_index_list@.len() > 0 { 1int } else { 0int }
        },
        hittable_index_list@.len() > 0 ==> {
            let s = final(hittable_service).entries();
            let base = old(hittable_service).entries().len() as int;
            let root = final(hittable_service).bvh_root() as int;
            &&& root == s.len() - 1 - if light_index_list@.len() > 0 { 1int } else { 0int }
            &&& base <= root
            &&& s[root] is BVHNode
            &&& region_ok(s.subrange(0, root + 1), base, keys@, base)
            &&& reach(s, base, root) == hittable_index_list@.to_set()
        },
        light_index_list@.len() == 0 ==> final(hittable_service).lights_root() == old(
            hittable_service,
        ).lights_root(),
        light_index_list@.len() > 0 ==> {
            let s = final(hittable_service).entries();
            let lights = final(hittable_service).lights_root() as int;
            &&& lights == s.len() - 1
            &&& lights != 0
            &&& (s[lights] matches HittableEnum::HittableList(list) && list.hittable_indices@
                == light_index_list@)
        },
{
    let ghost s0 = hittable_service.entries();
    let ghost base = s0.len() as int;
    let ghost hittables = hittable_index_list@;
    let mut hittable_index_list = hittable_index_list;
    if 0 < hittable_index_list.len() {
        let root = BVHNode::from_index_list(
            rng,
            hittable_service,
            keys,
            has_box,
            &mut hittable_index_list,
        );
        let ghost s1 = hittable_service.entries();
        let root_node_index = hittable_service.add_hittable(HittableEnum::BVHNode(root));
        hittable_service.set_bvh_root_index(root_node_index);
        let ghost s2 = hittable_service.entries();
        proof {
            let r = root_node_index as int;
            assert(extends(s1, s2));
            crate::bvh::lemma_node_ok_extends(s1, s2, base, keys@, root, r);
            assert(reach(s2, base, r) == crate::bvh::leaves(s2, base, root));
            assert(s2.subrange(0, r + 1) =~= s2);
            assert forall|c: int| base <= c < s2.len() implies (#[trigger] s2[c] is BVHNode
                && node_ok(s2, base, keys@, s2[c]->BVHNode_0, c)) by {
                if c < r {
                    crate::bvh::lemma_region_entry_extends(s1, s2, base, keys@, base, c);
                }
            }
            assert(region_ok(s2.subrange(0, r + 1), base, keys@, base));
        }
    }
    let ghost s3 = hittable_service.entries();
    if 0 < light_index_list.len() {
        let light_list = HittableEnum::HittableList(HittableList::from_list(light_index_list));
        let root_node_index = hittable_service.add_hittable(light_list);
        hittable_service.set_lights_root_index(root_node_index);
        proof {
            let s4 = hittable_service.entries();
            let root = hittable_service.bvh_root() as int;
            if hittables.len() > 0 {
                assert(extends(s3, s4));
                assert(s4.subrange(0, root + 1) =~= s3.subrange(0, root + 1));
                crate::bvh::lemma_reach_extends(s3, s4, base, root);
            }
        }
    }
}

} // verus!
