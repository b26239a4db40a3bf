//! The set of add-on instances the core has running.
use crate::runtime::{desired_ids, is_running, not_running, plans_view, InstancePlanView, SpaceAddonSyncPlan};
use crate::strset::StrSet;
use crate::text::{trim, trim_str, trimmed_nonempty_set};
use vstd::prelude::*;

verus! {

/// Instance ids of running add-ons, each trimmed and non-empty.
pub struct SpaceAddonInstanceSet {
    instance_ids: StrSet,
}

impl View for SpaceAddonInstanceSet {
    type V = Set<Seq<char>>;

    closed spec fn view(&self) -> Set<Seq<char>> {
        self.instance_ids@
    }
}

/// The ids of some plans.
pub open spec fn plan_ids(plans: Seq<InstancePlanView>) -> Set<Seq<char>> {
    plans.map_values(|p: InstancePlanView| p.instance_id).to_set()
}

/// The set after a sync plan: the stopped ids removed, then the trimmed ids
/// of the started and kept plans added.
pub open spec fn after_sync(
    s: Set<Seq<char>>,
    stop: Seq<Seq<char>>,
    start: Seq<InstancePlanView>,
    keep: Seq<InstancePlanView>,
) -> Set<Seq<char>> {
    s.difference(stop.to_set()).union(trimmed_nonempty_set(plan_id_seq(start))).union(
        trimmed_nonempty_set(plan_id_seq(keep)),
    )
}

/// The ids of some plans, in order.
pub open spec fn plan_id_seq(plans: Seq<InstancePlanView>) -> Seq<Seq<char>> {
    plans.map_values(|p: InstancePlanView| p.instance_id)
}

impl SpaceAddonInstanceSet {
    pub fn new() -> (s: Self)
        ensures
            s@ == Set::<Seq<char>>::empty(),
    {
        SpaceAddonInstanceSet { instance_ids: StrSet::new() }
    }

    pub fn is_empty(&self) -> (r: bool)
        ensures
            r == (self@ == Set::<Seq<char>>::empty()),
    {
        self.instance_ids.is_empty()
    }

    pub fn len(&self) -> (n: usize)
        ensures
            n == self@.len(),
    {
        self.instance_ids.len()
    }

    pub fn contains(&self, instance_id: &str) -> (r: bool)
        ensures
            r == self@.contains(instance_id@),
    {
        self.instance_ids.contains(instance_id)
    }

    /// Adds the trimmed id unless it is blank; returns whether it was new.
    pub fn mark_present(&mut self, instance_id: &str) -> (added: bool)
        ensures
            trim(instance_id@).len() == 0 ==> final(self)@ == old(self)@ && !added,
            trim(instance_id@).len() > 0 ==> final(self)@ == old(self)@.insert(trim(instance_id@)) && added
                == !old(self)@.contains(trim(instance_id@)),
    {
        let id = trim_str(instance_id);
        if id.as_str().is_empty() {
            return false;
        }
        self.instance_ids.insert(id)
    }

    /// Removes the id as given; returns whether it was there.
    pub fn mark_absent(&mut self, instance_id: &str) -> (removed: bool)
        ensures
            final(self)@ == old(self)@.remove(instance_id@),
            removed == old(self)@.contains(instance_id@),
    {
        self.instance_ids.remove(instance_id)
    }

    /// Stops what the plan stops, then marks what it starts or keeps as
    /// running.
    pub fn apply_sync_plan(&mut self, sync_plan: &SpaceAddonSyncPlan)
        ensures
            final(self)@ == after_sync(
                old(self)@,
                sync_plan.stop.deep_view(),
                plans_view(sync_plan.start@),
                plans_view(sync_plan.keep@),
            ),
    {
        let ghost s0 = self@;
        let ghost stop = sync_plan.stop.deep_view();
        let mut i: usize = 0;
        while i < sync_plan.stop.len()
            invariant
                stop == sync_plan.stop.deep_view(),
                i <= stop.len(),
                self@ == s0.difference(stop.take(i as int).to_set()),
            decreases stop.len() - i,
        {
            self.mark_absent(sync_plan.stop[i].as_str());
            proof {
                assert(stop[i as int] == sync_plan.stop@[i as int]@);
                assert(stop.take(i + 1) == stop.take(i as int).push(stop[i as int]));
                assert(stop.take(i + 1).to_set() =~= stop.take(i as int).to_set().insert(stop[i as int])) by {
                    assert forall|y: Seq<char>| stop.take(i + 1).to_set().contains(y) <==> stop.take(
                        i as int,
                    ).to_set().insert(stop[i as int]).contains(y) by {
                        if stop.take(i + 1).to_set().contains(y) {
                            let k = choose|k: int| 0 <= k < i + 1 && #[trigger] stop.take(i + 1)[k] == y;
                            if k < i {
                                assert(stop.take(i as int)[k] == y);
                            }
                        }
                        if stop.take(i as int).to_set().contains(y) {
                            let k = choose|k: int| 0 <= k < i && #[trigger] stop.take(i as int)[k] == y;
                            assert(stop.take(i + 1)[k] == y);
                        }
                        if y == stop[i as int] {
                            assert(stop.take(i + 1)[i as int] == y);
                        }
                    }
                }
                assert(self@ =~= s0.difference(stop.take(i + 1).to_set()));
            }
            i = i + 1;
        }
        proof {
            assert(stop.take(stop.len() as int) == stop);
        }
        self.mark_all_present(&sync_plan.start);
        self.mark_all_present(&sync_plan.keep);
    }

    /// Marks the trimmed ids of the plans as running.
    fn mark_all_present(&mut self, plans: &Vec<crate::runtime::SpaceAddonInstancePlan>)
        ensures
            final(self)@ == old(self)@.union(trimmed_nonempty_set(plan_id_seq(plans_view(plans@)))),
    {
        let ghost s1 = self@;
        let ghost ids = plan_id_seq(plans_view(plans@));
        let mut j: usize = 0;
        while j < plans.len()
            invariant
                ids == plan_id_seq(plans_view(plans@)),
                ids.len() == plans@.len(),
                j <= plans@.len(),
                self@ == s1.union(trimmed_nonempty_set(ids.take(j as int))),
            decreases plans@.len() - j,
        {
            let id = &plans[j].instance_id;
            proof {
                assert(ids[j as int] == id@);
                assert(ids.take(j + 1) == ids.take(j as int).push(id@));
            }
            self.mark_present(id.as_str());
            proof {
                crate::text::lemma_trimmed_nonempty_push(ids.take(j as int), id@);
                assert(self@ =~= s1.union(trimmed_nonempty_set(ids.take(j + 1))));
            }
            j = j + 1;
        }
        proof {
            assert(ids.take(plans@.len() as int) == ids);
        }
    }

    /// Replaces the set by the trimmed, non-blank ids given.
    pub fn replace(&mut self, instance_ids: Vec<String>)
        ensures
            final(self)@ == trimmed_nonempty_set(instance_ids.deep_view()),
    {
        let mut fresh = SpaceAddonInstanceSet::new();
        let ghost v = instance_ids.deep_view();
        let mut i: usize = 0;
        while i < instance_ids.len()
            invariant
                v == instance_ids.deep_view(),
                i <= v.len(),
                fresh@ == trimmed_nonempty_set(v.take(i as int)),
            decreases v.len() - i,
        {
            let ghost x = v[i as int];
            proof {
                assert(x == instance_ids@[i as int]@);
                assert(v.take(i + 1) == v.take(i as int).push(x));
            }
            fresh.mark_present(instance_ids[i].as_str());
            proof {
                crate::text::lemma_trimmed_nonempty_push(v.take(i as int), x);
            }
            i = i + 1;
        }
        proof {
            assert(v.take(v.len() as int) == v);
        }
        *self = fresh;
    }

    /// A copy of the set of ids.
    pub fn snapshot(&self) -> (r: StrSet)
        ensures
            r@ == self@,
    {
        self.instance_ids.duplicate()
    }

    /// The ids in increasing order.
    pub fn sorted_ids(&self) -> (r: Vec<String>)
        ensures
            r.deep_view() == crate::text::sorted_seq_of(self@),
    {
        let r = self.instance_ids.to_sorted_vec();
        proof {
            let w = choose|s: Seq<Seq<char>>| crate::text::strictly_sorted(s) && s.to_set() == self@;
            crate::text::lemma_strictly_sorted_unique(r.deep_view(), w);
        }
        r
    }
}

/// Every id of a filtered list of plans, trimmed, is the id of one of the
/// original plans satisfying the filter, when the ids are already trimmed
/// and not blank; and each such plan's id is among them.
proof fn lemma_filtered_ids(desired: Seq<InstancePlanView>, p: spec_fn(InstancePlanView) -> bool, x: Seq<char>)
    requires
        forall|i: int|
            0 <= i < desired.len() ==> trim(#[trigger] desired[i].instance_id) == desired[i].instance_id
                && desired[i].instance_id.len() > 0,
    ensures
        trimmed_nonempty_set(plan_id_seq(desired.filter(p))).contains(x) <==> exists|j: int|
            0 <= j < desired.len() && #[trigger] desired[j].instance_id == x && p(desired[j]),
{
    broadcast use vstd::seq_lib::group_filter_ensures;

    let f = desired.filter(p);
    let ids = plan_id_seq(f);
    if trimmed_nonempty_set(ids).contains(x) {
        let i = choose|i: int| 0 <= i < ids.len() && trim(#[trigger] ids[i]) == x;
        assert(ids[i] == f[i].instance_id);
        assert(f.contains(f[i]));
        desired.lemma_filter_contains_rev(p, f[i]);
        let j = choose|j: int| 0 <= j < desired.len() && desired[j] == f[i];
        assert(desired[j].instance_id == x && p(desired[j]));
    }
    if exists|j: int| 0 <= j < desired.len() && #[trigger] desired[j].instance_id == x && p(desired[j]) {
        let j = choose|j: int| 0 <= j < desired.len() && #[trigger] desired[j].instance_id == x && p(desired[j]);
        assert(f.contains(desired[j]));
        let i = choose|i: int| 0 <= i < f.len() && f[i] == desired[j];
        assert(ids[i] == x);
        assert(trim(ids[i]) == x);
    }
}

/// Reconciling works: applying the plan `plan_space_addon_sync` makes for
/// the desired instances to the running set leaves exactly the desired
/// instances running, when their ids are trimmed and not blank.
pub proof fn lemma_sync_plan_reconciles(desired: Seq<InstancePlanView>, running: Set<Seq<char>>)
    requires
        running.finite(),
        forall|i: int|
            0 <= i < desired.len() ==> trim(#[trigger] desired[i].instance_id) == desired[i].instance_id
                && desired[i].instance_id.len() > 0,
    ensures
        after_sync(
            running,
            crate::text::sorted_seq_of(running.difference(desired_ids(desired))),
            desired.filter(not_running(running)),
            desired.filter(is_running(running)),
        ) == desired_ids(desired),
{
    let ids = desired_ids(desired);
    let gone = running.difference(ids);
    crate::text::lemma_sorted_enumeration_exists(gone);
    let stop = crate::text::sorted_seq_of(gone);
    assert(stop.to_set() == gone);
    let lhs = after_sync(running, stop, desired.filter(not_running(running)), desired.filter(is_running(running)));
    assert forall|x: Seq<char>| lhs.contains(x) <==> ids.contains(x) by {
        lemma_filtered_ids(desired, not_running(running), x);
        lemma_filtered_ids(desired, is_running(running), x);
        let m = desired.map_values(|p: InstancePlanView| p.instance_id);
        if ids.contains(x) {
            let j = choose|j: int| 0 <= j < m.len() && m[j] == x;
            assert(desired[j].instance_id == x);
            if running.contains(x) {
                assert(is_running(running)(desired[j]));
            } else {
                assert(not_running(running)(desired[j]));
            }
        }
        if lhs.contains(x) && !(running.contains(x) && !gone.contains(x)) {
            if exists|j: int| 0 <= j < desired.len() && #[trigger] desired[j].instance_id == x {
                let j = choose|j: int| 0 <= j < desired.len() && #[trigger] desired[j].instance_id == x;
                assert(m[j] == x);
            }
        }
    }
    assert(lhs =~= ids);
}

} // verus!
