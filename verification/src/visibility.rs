//! What a bake camera sees, and how many items its first tile must show.
use vstd::prelude::*;

use crate::progress::BakeState;

verus! {

/// What is known of an entity, seen from a camera.
#[derive(Clone, Copy, Debug, PartialEq, Eq)]
pub struct EntityFacts {
    pub entity: u64,
    /// Whether it and all that it belongs to are shown.
    pub inherited: bool,
    /// Whether it shares a layer with the camera.
    pub layers_intersect: bool,
    /// Whether it is never culled.
    pub no_frustum_culling: bool,
    /// Whether its bounds reach into the sphere round the camera, where it has bounds.
    pub in_reach: Option<bool>,
}

/// Whether a camera sees an entity: it is shown, shares a layer, and is not culled.
pub open spec fn is_seen(facts: EntityFacts, no_cpu_culling: bool) -> bool {
    &&& facts.inherited
    &&& facts.layers_intersect
    &&& facts.no_frustum_culling || no_cpu_culling || facts.in_reach != Some(false)
}

/// Whether a camera sees an entity.
pub fn sees(facts: &EntityFacts, no_cpu_culling: bool) -> (r: bool)
    ensures
        r == is_seen(*facts, no_cpu_culling),
        r == (facts.inherited && facts.layers_intersect && (facts.no_frustum_culling
            || no_cpu_culling || facts.in_reach is None || facts.in_reach == Some(true))),
{
    if !facts.inherited || !facts.layers_intersect {
        return false;
    }
    if !facts.no_frustum_culling && !no_cpu_culling {
        match facts.in_reach {
            Some(in_reach) => in_reach,
            None => true,
        }
    } else {
        true
    }
}

/// The entities that a camera sees, in order.
pub open spec fn seen_entities(facts: Seq<EntityFacts>, no_cpu_culling: bool) -> Seq<u64>
    decreases facts.len(),
{
    if facts.len() == 0 {
        Seq::empty()
    } else {
        let front = seen_entities(facts.drop_last(), no_cpu_culling);
        if is_seen(facts.last(), no_cpu_culling) {
            front.push(facts.last().entity)
        } else {
            front
        }
    }
}

/// The entities that a camera sees, in order.
pub fn visible_entities(facts: &Vec<EntityFacts>, no_cpu_culling: bool) -> (r: Vec<u64>)
    ensures
        r@ == seen_entities(facts@, no_cpu_culling),
{
    let mut r: Vec<u64> = Vec::new();
    let mut i: usize = 0;
    while i < facts.len()
        invariant
            i <= facts@.len(),
            r@ == seen_entities(facts@.take(i as int), no_cpu_culling),
        decreases facts@.len() - i,
    {
        assert(facts@.take(i + 1).drop_last() =~= facts@.take(i as int));
        if sees(&facts[i], no_cpu_culling) {
            r.push(facts[i].entity);
        }
        i = i + 1;
    }
    assert(facts@.take(i as int) =~= facts@);
    r
}

/// What a camera sees are the entities that are shown, share a layer, and are not culled, in
/// order: nothing is culled that has no bounds, is never culled, or is seen from a camera that
/// culls nothing.
pub proof fn law_seen_in_order(
    facts: Seq<EntityFacts>,
    no_cpu_culling: bool,
    wanted: spec_fn(EntityFacts) -> bool,
    entity: spec_fn(EntityFacts) -> u64,
)
    requires
        forall|f: EntityFacts| #[trigger]
            wanted(f) == (f.inherited && f.layers_intersect && (f.no_frustum_culling
                || no_cpu_culling || f.in_reach is None || f.in_reach == Some(true))),
        forall|f: EntityFacts| #[trigger] entity(f) == f.entity,
    ensures
        seen_entities(facts, no_cpu_culling) == facts.filter(wanted).map_values(entity),
    decreases facts.len(),
{
    reveal(Seq::filter);
    if facts.len() > 0 {
        let front = facts.drop_last();
        law_seen_in_order(front, no_cpu_culling, wanted, entity);
        assert(wanted(facts.last()) == is_seen(facts.last(), no_cpu_culling)) by {
            match facts.last().in_reach {
                Some(in_reach) => {
                    assert(in_reach || !in_reach);
                },
                None => {},
            }
        }
        if wanted(facts.last()) {
            assert(entity(facts.last()) == facts.last().entity);
            assert(facts.filter(wanted) == front.filter(wanted).push(facts.last()));
            assert(front.filter(wanted).push(facts.last()).map_values(entity) =~= front.filter(
                wanted,
            ).map_values(entity).push(facts.last().entity));
        }
    } else {
        assert(facts.filter(wanted).map_values(entity) =~= Seq::<u64>::empty());
    }
}

/// A camera, as far as visibility goes.
#[derive(Debug)]
pub struct CameraVisibility {
    pub continuous: bool,
    pub state: BakeState,
    /// Whether nothing is culled for this camera.
    pub no_cpu_culling: bool,
    /// What the camera sees.
    pub visible: Vec<u64>,
    /// How many items the first tile of the camera must show.
    pub expected_count: usize,
}

impl CameraVisibility {
    /// Whether the camera has baked its imposter and bakes no other.
    pub open spec fn is_done(self) -> bool {
        !self.continuous && self.state == BakeState::Finished
    }

    /// Everything but what the camera sees and must show.
    pub open spec fn same_camera(self, other: Self) -> bool {
        &&& self.continuous == other.continuous
        &&& self.state == other.state
        &&& self.no_cpu_culling == other.no_cpu_culling
    }
}

/// A camera after the check, where `facts` are known of the entities as it sees them. A camera
/// that is done sees nothing any longer; any other sees what it sees, and starts to count anew.
pub open spec fn is_checked(
    after: CameraVisibility,
    before: CameraVisibility,
    facts: Seq<EntityFacts>,
) -> bool {
    &&& after.same_camera(before)
    &&& if before.is_done() {
        after.visible@ == Seq::<u64>::empty() && after.expected_count == before.expected_count
    } else {
        after.visible@ == seen_entities(facts, before.no_cpu_culling) && after.expected_count == 0
    }
}

/// Notes for every camera what it sees; `facts` are known of the entities, seen from each.
pub fn check_imposter_visibility(
    cameras: &mut Vec<CameraVisibility>,
    facts: &Vec<Vec<EntityFacts>>,
)
    requires
        old(cameras)@.len() == facts@.len(),
    ensures
        final(cameras)@.len() == old(cameras)@.len(),
        forall|k: int|
            0 <= k < old(cameras)@.len() ==> is_checked(
                #[trigger] final(cameras)@[k],
                old(cameras)@[k],
                facts@[k]@,
            ),
        forall|k: int|
            #![trigger final(cameras)@[k]]
            0 <= k < old(cameras)@.len() ==> {
                let before = old(cameras)@[k];
                let after = final(cameras)@[k];
                &&& after.continuous == before.continuous
                &&& after.state == before.state
                &&& after.no_cpu_culling == before.no_cpu_culling
                &&& !before.continuous && before.state is Finished ==> after.visible@.len() == 0
                    && after.expected_count == before.expected_count
                &&& before.continuous || !(before.state is Finished) ==> after.expected_count == 0
                    && after.visible@ == seen_entities(facts@[k]@, before.no_cpu_culling)
            },
{
    let ghost given = cameras@;
    let mut i: usize = 0;
    while i < cameras.len()
        invariant
            i <= cameras@.len(),
            given == old(cameras)@,
            cameras@.len() == given.len(),
            given.len() == facts@.len(),
            forall|k: int|
                0 <= k < i ==> is_checked(#[trigger] cameras@[k], given[k], facts@[k]@),
            forall|k: int| i <= k < cameras@.len() ==> #[trigger] cameras@[k] == given[k],
        decreases cameras@.len() - i,
    {
        let continuous: bool = cameras[i].continuous;
        let state = cameras[i].state;
        let no_cpu_culling: bool = cameras[i].no_cpu_culling;
        let visible: Vec<u64>;
        let expected_count: usize;
        if !continuous && state == BakeState::Finished {
            visible = Vec::new();
            expected_count = cameras[i].expected_count;
        } else {
            visible = visible_entities(&facts[i], no_cpu_culling);
            expected_count = 0;
        }
        let checked = CameraVisibility {
            continuous,
            state,
            no_cpu_culling,
            visible,
            expected_count,
        };
        cameras.set(i, checked);
        i = i + 1;
    }
}

/// How many flags are set.
pub open spec fn count_set(flags: Seq<bool>) -> nat
    decreases flags.len(),
{
    if flags.len() == 0 {
        0
    } else {
        count_set(flags.drop_last()) + if flags.last() {
            1nat
        } else {
            0nat
        }
    }
}

/// Of the first flags no more are set than of all.
proof fn lemma_count_take(flags: Seq<bool>, n: int)
    requires
        0 <= n <= flags.len(),
    ensures
        count_set(flags.take(n)) <= count_set(flags),
    decreases flags.len() - n,
{
    if n < flags.len() {
        lemma_count_take(flags, n + 1);
        assert(flags.take(n + 1).drop_last() =~= flags.take(n));
    } else {
        assert(flags.take(n) =~= flags);
    }
}

/// Adds to the items that the first tile must show the visible entities that a material draws;
/// `drawn` says of each visible entity whether it does.
pub fn count_expected(expected_count: usize, drawn: &Vec<bool>) -> (r: usize)
    requires
        expected_count + count_set(drawn@) <= usize::MAX,
    ensures
        r == expected_count + count_set(drawn@),
{
    let mut count: usize = expected_count;
    let mut i: usize = 0;
    while i < drawn.len()
        invariant
            i <= drawn@.len(),
            count == expected_count + count_set(drawn@.take(i as int)),
            expected_count + count_set(drawn@) <= usize::MAX,
        decreases drawn@.len() - i,
    {
        proof {
            assert(drawn@.take(i + 1).drop_last() =~= drawn@.take(i as int));
            lemma_count_take(drawn@, i + 1);
        }
        if drawn[i] {
            count = count + 1;
        }
        i = i + 1;
    }
    assert(drawn@.take(i as int) =~= drawn@);
    count
}

} // verus!
