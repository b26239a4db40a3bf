//! The add-on process supervisor's decisions. Every round the core plans
//! which space add-on instances should run; the supervisor compares that
//! with the processes it holds and decides which to kill and which to
//! launch. A process that exits on its own, or fails to launch, is not
//! tried again while its instance stays wanted.
use crate::instances::{plan_id_seq, SpaceAddonInstanceSet};
use crate::runtime::{plans_view, SpaceAddonInstancePlan, SpaceAddonSyncPlan};
use crate::strset::StrSet;
use crate::text::trim;
use vstd::prelude::*;

verus! {

/// The instance ids a plan wants running: those it starts and those it keeps.
pub open spec fn wanted_ids(start: Seq<Seq<char>>, keep: Seq<Seq<char>>) -> Set<Seq<char>> {
    start.to_set().union(keep.to_set())
}

/// Processes that survive a round: wanted, not stopped, not exited.
pub open spec fn still_running(
    running: Set<Seq<char>>,
    wanted: Set<Seq<char>>,
    stop: Set<Seq<char>>,
    exited: Set<Seq<char>>,
) -> Set<Seq<char>> {
    running.intersect(wanted).difference(stop).difference(exited)
}

/// Instances not to be launched after a round: those already held back and
/// still wanted, and those whose process exited on its own; a stop clears
/// both.
pub open spec fn still_suppressed(
    suppressed: Set<Seq<char>>,
    running: Set<Seq<char>>,
    wanted: Set<Seq<char>>,
    stop: Set<Seq<char>>,
    exited: Set<Seq<char>>,
) -> Set<Seq<char>> {
    suppressed.intersect(wanted).difference(stop).union(running.intersect(exited).difference(stop))
}

/// Processes to kill: the stopped ones, and those no longer wanted that are
/// still alive.
pub open spec fn to_kill(
    running: Set<Seq<char>>,
    wanted: Set<Seq<char>>,
    stop: Set<Seq<char>>,
    exited: Set<Seq<char>>,
) -> Set<Seq<char>> {
    running.intersect(stop).union(running.difference(stop).difference(exited).difference(wanted))
}

/// `s` with `id` marked present: its trimmed form added unless blank.
pub open spec fn marked_present(s: Set<Seq<char>>, id: Seq<char>) -> Set<Seq<char>> {
    if trim(id).len() > 0 {
        s.insert(trim(id))
    } else {
        s
    }
}

/// The instance set after each kept id, in order, is marked present when
/// its process runs and absent otherwise.
pub open spec fn mark_kept(s: Set<Seq<char>>, keep: Seq<Seq<char>>, running: Set<Seq<char>>) -> Set<
    Seq<char>,
>
    decreases keep.len(),
{
    if keep.len() == 0 {
        s
    } else {
        let before = mark_kept(s, keep.drop_last(), running);
        let k = keep.last();
        if running.contains(k) {
            marked_present(before, k)
        } else {
            before.remove(k)
        }
    }
}

/// Positions, among the first `n` of `start`, of the instances to launch:
/// the first occurrence of each id that neither runs nor is held back.
pub open spec fn launch_positions(
    start: Seq<Seq<char>>,
    n: nat,
    running: Set<Seq<char>>,
    suppressed: Set<Seq<char>>,
) -> Seq<int>
    decreases n,
{
    if n == 0 {
        Seq::empty()
    } else {
        let i = n - 1;
        let before = launch_positions(start, (n - 1) as nat, running, suppressed);
        if !running.contains(start[i]) && !suppressed.contains(start[i]) && !start.take(i).contains(
            start[i],
        ) {
            before.push(i)
        } else {
            before
        }
    }
}

pub struct ManagerView {
    pub running: Set<Seq<char>>,
    pub suppressed: Set<Seq<char>>,
}

/// What the supervisor remembers between rounds: the instances it holds a
/// live process for, and those it will not launch again until the plan
/// stops wanting them.
pub struct AddonManager {
    running: StrSet,
    suppressed: StrSet,
}

/// What a round asks of the process owner.
pub struct ManagerActions {
    /// Instance ids whose process is to be killed.
    pub kill: Vec<String>,
    /// Positions in the plan's `start` list of the instances to launch, in
    /// the order to launch them.
    pub launch: Vec<usize>,
}

impl View for AddonManager {
    type V = ManagerView;

    closed spec fn view(&self) -> ManagerView {
        ManagerView { running: self.running@, suppressed: self.suppressed@ }
    }
}

/// The instance ids of some plans, in order.
fn plan_ids(plans: &Vec<SpaceAddonInstancePlan>) -> (r: Vec<String>)
    ensures
        r.deep_view() == plan_id_seq(plans_view(plans@)),
{
    let ghost ids = plan_id_seq(plans_view(plans@));
    let mut r: Vec<String> = Vec::new();
    let mut i: usize = 0;
    while i < plans.len()
        invariant
            ids == plan_id_seq(plans_view(plans@)),
            ids.len() == plans@.len(),
            i <= plans@.len(),
            r.deep_view() == ids.take(i as int),
        decreases plans@.len() - i,
    {
        let id = plans[i].instance_id.clone();
        let ghost before = r.deep_view();
        r.push(id);
        proof {
            assert(ids[i as int] == id@);
            assert(r.deep_view() =~= before.push(id@));
            assert(ids.take(i + 1) =~= ids.take(i as int).push(id@));
        }
        i = i + 1;
    }
    proof {
        assert(ids.take(plans@.len() as int) == ids);
    }
    r
}

/// Adds every string of `v` to `s`.
fn insert_all(s: &mut StrSet, v: &Vec<String>)
    ensures
        final(s)@ == old(s)@.union(v.deep_view().to_set()),
{
    let ghost s0 = s@;
    let ghost d = v.deep_view();
    let mut i: usize = 0;
    while i < v.len()
        invariant
            d == v.deep_view(),
            i <= d.len(),
            s@ == s0.union(d.take(i as int).to_set()),
        decreases d.len() - i,
    {
        s.insert(v[i].clone());
        proof {
            assert(v@[i as int]@ == d[i as int]);
            crate::text::lemma_take_to_set_step(d, i as int);
            assert(s@ =~= s0.union(d.take(i + 1).to_set()));
        }
        i = i + 1;
    }
    proof {
        assert(d.take(d.len() as int) == d);
    }
}

/// The members of `u` that are in `keep` and not in `drop`.
fn retain_between(u: &StrSet, keep: &StrSet, drop: &StrSet) -> (r: StrSet)
    ensures
        r@ == u@.intersect(keep@).difference(drop@),
{
    let items = u.to_sorted_vec();
    let ghost d = items.deep_view();
    let mut r = StrSet::new();
    let mut i: usize = 0;
    while i < items.len()
        invariant
            d == items.deep_view(),
            d.to_set() == u@,
            i <= d.len(),
            r@ == d.take(i as int).to_set().intersect(keep@).difference(drop@),
        decreases d.len() - i,
    {
        let x = &items[i];
        proof {
            assert(x@ == d[i as int]);
            crate::text::lemma_take_to_set_step(d, i as int);
        }
        if keep.contains(x.as_str()) && !drop.contains(x.as_str()) {
            r.insert(x.clone());
        }
        proof {
            assert(r@ =~= d.take(i + 1).to_set().intersect(keep@).difference(drop@));
        }
        i = i + 1;
    }
    proof {
        assert(d.take(d.len() as int) == d);
    }
    r
}

/// Forgets the processes of the stopped instances and marks those instances
/// absent; returns, once each, the stopped ids that had a process.
fn stop_running(running: &mut StrSet, instances: &mut SpaceAddonInstanceSet, stop: &Vec<String>) -> (kill:
    Vec<String>)
    ensures
        final(running)@ == old(running)@.difference(stop.deep_view().to_set()),
        final(instances)@ == old(instances)@.difference(stop.deep_view().to_set()),
        kill.deep_view().to_set() == old(running)@.intersect(stop.deep_view().to_set()),
        kill.deep_view().no_duplicates(),
        forall|j: int| 0 <= j < kill.deep_view().len() ==> !final(running)@.contains(#[trigger] kill.deep_view()[j]),
{
    let ghost r0 = running@;
    let ghost i0 = instances@;
    let ghost d = stop.deep_view();
    let mut kill: Vec<String> = Vec::new();
    let mut i: usize = 0;
    while i < stop.len()
        invariant
            d == stop.deep_view(),
            i <= d.len(),
            running@ == r0.difference(d.take(i as int).to_set()),
            instances@ == i0.difference(d.take(i as int).to_set()),
            kill.deep_view().to_set() == r0.intersect(d.take(i as int).to_set()),
            kill.deep_view().no_duplicates(),
            forall|j: int| 0 <= j < kill.deep_view().len() ==> !running@.contains(#[trigger] kill.deep_view()[j]),
        decreases d.len() - i,
    {
        let t = stop[i].as_str();
        proof {
            assert(t@ == d[i as int]);
            crate::text::lemma_take_to_set_step(d, i as int);
        }
        let ghost kill_before = kill.deep_view();
        let ghost run_before = running@;
        if running.remove(t) {
            kill.push(stop[i].clone());
            proof {
                assert(kill.deep_view() =~= kill_before.push(t@));
                kill_before.lemma_push_to_set_commute(t@);
                assert forall|a: int, b: int| 0 <= a < b < kill.deep_view().len() implies kill.deep_view()[a]
                    != kill.deep_view()[b] by {
                    if b == kill_before.len() {
                        assert(!run_before.contains(kill_before[a]));
                    }
                }
            }
        }
        instances.mark_absent(t);
        proof {
            assert(running@ =~= r0.difference(d.take(i + 1).to_set()));
            assert(instances@ =~= i0.difference(d.take(i + 1).to_set()));
            assert(kill.deep_view().to_set() =~= r0.intersect(d.take(i + 1).to_set()));
        }
        i = i + 1;
    }
    proof {
        assert(d.take(d.len() as int) == d);
    }
    kill
}

/// Goes through the processes left after the stops. One that exited is
/// forgotten and held back from relaunch; a live one the plan no longer
/// wants is to be killed. Either way its instance is marked absent.
fn sweep_running(
    running: &mut StrSet,
    suppressed: &mut StrSet,
    instances: &mut SpaceAddonInstanceSet,
    kill: &mut Vec<String>,
    wanted: &StrSet,
    exited: &StrSet,
)
    requires
        old(kill).deep_view().no_duplicates(),
        forall|j: int|
            0 <= j < old(kill).deep_view().len() ==> !old(running)@.contains(#[trigger] old(kill).deep_view()[j]),
    ensures
        final(running)@ == old(running)@.intersect(wanted@).difference(exited@),
        final(suppressed)@ == old(suppressed)@.union(old(running)@.intersect(exited@)),
        final(instances)@ == old(instances)@.difference(old(running)@.difference(final(running)@)),
        final(kill).deep_view().to_set() == old(kill).deep_view().to_set().union(
            old(running)@.difference(exited@).difference(wanted@),
        ),
        final(kill).deep_view().no_duplicates(),
{
    let ghost r1 = running@;
    let ghost u0 = suppressed@;
    let ghost i0 = instances@;
    let ghost k0 = kill.deep_view();
    let ghost live = wanted@.difference(exited@);
    let items = running.to_sorted_vec();
    let ghost d = items.deep_view();
    proof {
        crate::text::lemma_strictly_sorted_no_duplicates(d);
    }
    let mut i: usize = 0;
    while i < items.len()
        invariant
            d == items.deep_view(),
            d.to_set() == r1,
            d.no_duplicates(),
            live == wanted@.difference(exited@),
            i <= d.len(),
            running@ == r1.difference(d.take(i as int).to_set()).union(d.take(i as int).to_set().intersect(live)),
            suppressed@ == u0.union(d.take(i as int).to_set().intersect(exited@)),
            instances@ == i0.difference(d.take(i as int).to_set().difference(live)),
            kill.deep_view().to_set() == k0.to_set().union(
                d.take(i as int).to_set().difference(exited@).difference(wanted@),
            ),
            kill.deep_view().no_duplicates(),
            forall|j: int|
                0 <= j < kill.deep_view().len() ==> !r1.contains(#[trigger] kill.deep_view()[j]) || d.take(
                    i as int,
                ).contains(kill.deep_view()[j]),
            forall|j: int| 0 <= j < k0.len() ==> !r1.contains(#[trigger] k0[j]),
        decreases d.len() - i,
    {
        let x = &items[i];
        proof {
            assert(x@ == d[i as int]);
            crate::text::lemma_take_to_set_step(d, i as int);
            assert(d.take(i + 1) =~= d.take(i as int).push(d[i as int]));
            assert(r1.contains(x@));
        }
        let ghost kill_before = kill.deep_view();
        if exited.contains(x.as_str()) {
            running.remove(x.as_str());
            suppressed.insert(x.clone());
            instances.mark_absent(x.as_str());
        } else if !wanted.contains(x.as_str()) {
            running.remove(x.as_str());
            instances.mark_absent(x.as_str());
            kill.push(x.clone());
            proof {
                assert(kill.deep_view() =~= kill_before.push(x@));
                kill_before.lemma_push_to_set_commute(x@);
                assert(!d.take(i as int).contains(x@)) by {
                    if d.take(i as int).contains(x@) {
                        let k = choose|k: int| 0 <= k < i && #[trigger] d.take(i as int)[k] == x@;
                        assert(d[k] == d[i as int]);
                    }
                }
                assert forall|a: int, b: int| 0 <= a < b < kill.deep_view().len() implies kill.deep_view()[a]
                    != kill.deep_view()[b] by {
                    if b == kill_before.len() {
                        assert(kill.deep_view()[a] == kill_before[a]);
                    }
                }
            }
        }
        proof {
            assert(running@ =~= r1.difference(d.take(i + 1).to_set()).union(d.take(i + 1).to_set().intersect(live)));
            assert(suppressed@ =~= u0.union(d.take(i + 1).to_set().intersect(exited@)));
            assert(instances@ =~= i0.difference(d.take(i + 1).to_set().difference(live)));
            assert(kill.deep_view().to_set() =~= k0.to_set().union(
                d.take(i + 1).to_set().difference(exited@).difference(wanted@),
            ));
            assert forall|j: int| 0 <= j < kill.deep_view().len() implies !r1.contains(
                #[trigger] kill.deep_view()[j],
            ) || d.take(i + 1).contains(kill.deep_view()[j]) by {
                if j < kill_before.len() {
                    assert(kill.deep_view()[j] == kill_before[j]);
                    if d.take(i as int).contains(kill_before[j]) {
                        let k = choose|k: int| 0 <= k < i && #[trigger] d.take(i as int)[k] == kill_before[j];
                        assert(d.take(i + 1)[k] == kill_before[j]);
                    }
                } else {
                    assert(d.take(i + 1)[i as int] == d[i as int]);
                }
            }
        }
        i = i + 1;
    }
    proof {
        assert(d.take(d.len() as int) == d);
        assert(running@ =~= r1.intersect(wanted@).difference(exited@));
        assert(r1.difference(running@) =~= r1.difference(live));
    }
}

/// Marks each kept instance, in order, present when its process runs and
/// absent otherwise.
fn mark_kept_instances(instances: &mut SpaceAddonInstanceSet, keep: &Vec<String>, running: &StrSet)
    ensures
        final(instances)@ == mark_kept(old(instances)@, keep.deep_view(), running@),
{
    let ghost i0 = instances@;
    let ghost d = keep.deep_view();
    let mut i: usize = 0;
    while i < keep.len()
        invariant
            d == keep.deep_view(),
            i <= d.len(),
            instances@ == mark_kept(i0, d.take(i as int), running@),
        decreases d.len() - i,
    {
        let k = keep[i].as_str();
        proof {
            assert(k@ == d[i as int]);
            assert(d.take(i + 1).drop_last() =~= d.take(i as int));
            assert(d.take(i + 1).last() == d[i as int]);
        }
        if running.contains(k) {
            instances.mark_present(k);
        } else {
            instances.mark_absent(k);
        }
        i = i + 1;
    }
    proof {
        assert(d.take(d.len() as int) == d);
    }
}

/// The positions in `start` of the instances to launch.
fn launch_list(start: &Vec<String>, running: &StrSet, suppressed: &StrSet) -> (r: Vec<usize>)
    ensures
        r@.map_values(|p: usize| p as int) == launch_positions(
            start.deep_view(),
            start.deep_view().len(),
            running@,
            suppressed@,
        ),
{
    let ghost d = start.deep_view();
    let mut seen = StrSet::new();
    let mut r: Vec<usize> = Vec::new();
    let mut i: usize = 0;
    while i < start.len()
        invariant
            d == start.deep_view(),
            i <= d.len(),
            seen@ == d.take(i as int).to_set(),
            r@.map_values(|p: usize| p as int) == launch_positions(d, i as nat, running@, suppressed@),
        decreases d.len() - i,
    {
        let x = start[i].as_str();
        proof {
            assert(x@ == d[i as int]);
            crate::text::lemma_take_to_set_step(d, i as int);
        }
        let ghost before = r@;
        if !running.contains(x) && !suppressed.contains(x) && !seen.contains(x) {
            r.push(i);
            proof {
                assert(r@ =~= before.push(i));
                assert(r@.map_values(|p: usize| p as int) =~= before.map_values(|p: usize| p as int).push(
                    i as int,
                ));
            }
        }
        seen.insert(start[i].clone());
        i = i + 1;
    }
    r
}

/// What a round leaves in the instance set: the stopped instances and those
/// whose process is gone are marked absent, then each kept instance present
/// or absent by whether its process runs.
pub open spec fn instances_after_round(
    instances: Set<Seq<char>>,
    running: Set<Seq<char>>,
    keep: Seq<Seq<char>>,
    wanted: Set<Seq<char>>,
    stop: Set<Seq<char>>,
    exited: Set<Seq<char>>,
) -> Set<Seq<char>> {
    let survivors = still_running(running, wanted, stop, exited);
    mark_kept(instances.difference(stop.union(running.difference(survivors))), keep, survivors)
}

impl AddonManager {
    /// A supervisor holding no process.
    pub fn new() -> (m: Self)
        ensures
            m@.running == Set::<Seq<char>>::empty(),
            m@.suppressed == Set::<Seq<char>>::empty(),
    {
        AddonManager { running: StrSet::new(), suppressed: StrSet::new() }
    }

    /// One round against a plan. `exited` names the held processes found to
    /// have ended since the last round. The caller kills the processes in
    /// `kill`, then launches the plan's `start` entries at the positions in
    /// `launch`, reporting each outcome to `record_launch`.
    pub fn plan_round(
        &mut self,
        instances: &mut SpaceAddonInstanceSet,
        plan: &SpaceAddonSyncPlan,
        exited: &Vec<String>,
    ) -> (actions: ManagerActions)
        ensures
            ({
                let start = plan_id_seq(plans_view(plan.start@));
                let keep = plan_id_seq(plans_view(plan.keep@));
                let wanted = wanted_ids(start, keep);
                let stop = plan.stop.deep_view().to_set();
                let gone = exited.deep_view().to_set();
                let running = old(self)@.running;
                &&& final(self)@.running == still_running(running, wanted, stop, gone)
                &&& final(self)@.suppressed == still_suppressed(
                    old(self)@.suppressed,
                    running,
                    wanted,
                    stop,
                    gone,
                )
                &&& actions.kill.deep_view().to_set() == to_kill(running, wanted, stop, gone)
                &&& actions.kill.deep_view().no_duplicates()
                &&& actions.launch@.map_values(|p: usize| p as int) == launch_positions(
                    start,
                    start.len(),
                    final(self)@.running,
                    final(self)@.suppressed,
                )
                &&& final(instances)@ == instances_after_round(
                    old(instances)@,
                    running,
                    keep,
                    wanted,
                    stop,
                    gone,
                )
            }),
    {
        let start_ids = plan_ids(&plan.start);
        let keep_ids = plan_ids(&plan.keep);
        let mut wanted = StrSet::new();
        insert_all(&mut wanted, &start_ids);
        insert_all(&mut wanted, &keep_ids);
        let stop_set = StrSet::from_vec(&plan.stop);
        let exited_set = StrSet::from_vec(exited);
        let ghost r0 = self.running@;
        let ghost i0 = instances@;
        let ghost stop = plan.stop.deep_view().to_set();
        let mut suppressed = retain_between(&self.suppressed, &wanted, &stop_set);
        let mut running = self.running.duplicate();
        let mut kill = stop_running(&mut running, instances, &plan.stop);
        let ghost i1 = instances@;
        let ghost r1 = running@;
        sweep_running(&mut running, &mut suppressed, instances, &mut kill, &wanted, &exited_set);
        let ghost i2 = instances@;
        mark_kept_instances(instances, &keep_ids, &running);
        let launch = launch_list(&start_ids, &running, &suppressed);
        proof {
            let survivors = still_running(r0, wanted@, stop, exited_set@);
            assert(running@ =~= survivors);
            assert(suppressed@ =~= still_suppressed(
                old(self)@.suppressed,
                r0,
                wanted@,
                stop,
                exited_set@,
            ));
            assert(kill.deep_view().to_set() =~= to_kill(r0, wanted@, stop, exited_set@));
            assert(i2 =~= i0.difference(stop.union(r0.difference(survivors))));
        }
        self.running = running;
        self.suppressed = suppressed;
        ManagerActions { kill, launch }
    }

    /// Records how the launch of `instance_id` went. A process that started
    /// is held and its instance marked present; one that failed is held back
    /// from relaunch and its instance marked absent.
    pub fn record_launch(&mut self, instances: &mut SpaceAddonInstanceSet, instance_id: &str, started: bool)
        ensures
            started ==> final(self)@.running == old(self)@.running.insert(instance_id@)
                && final(self)@.suppressed == old(self)@.suppressed && final(instances)@ == marked_present(
                old(instances)@,
                instance_id@,
            ),
            !started ==> final(self)@.running == old(self)@.running && final(self)@.suppressed == old(
                self,
            )@.suppressed.insert(instance_id@) && final(instances)@ == old(instances)@.remove(instance_id@),
    {
        if started {
            instances.mark_present(instance_id);
            self.running.insert(instance_id.to_string());
        } else {
            instances.mark_absent(instance_id);
            self.suppressed.insert(instance_id.to_string());
        }
    }

    /// The instances with a held process, in increasing order.
    pub fn running_ids(&self) -> (r: Vec<String>)
        ensures
            r.deep_view() == crate::text::sorted_seq_of(self@.running),
    {
        sorted_members(&self.running)
    }

    /// The instances held back from relaunch, in increasing order.
    pub fn suppressed_ids(&self) -> (r: Vec<String>)
        ensures
            r.deep_view() == crate::text::sorted_seq_of(self@.suppressed),
    {
        sorted_members(&self.suppressed)
    }
}

/// The members of a set in increasing order.
fn sorted_members(s: &StrSet) -> (r: Vec<String>)
    ensures
        r.deep_view() == crate::text::sorted_seq_of(s@),
{
    let r = s.to_sorted_vec();
    proof {
        let w = choose|q: Seq<Seq<char>>| crate::text::strictly_sorted(q) && q.to_set() == s@;
        crate::text::lemma_strictly_sorted_unique(r.deep_view(), w);
    }
    r
}

/// Each position `launch_positions` picks is within the first `n`, and its
/// instance neither runs nor is held back.
pub proof fn lemma_launch_positions_facts(
    start: Seq<Seq<char>>,
    n: nat,
    running: Set<Seq<char>>,
    suppressed: Set<Seq<char>>,
)
    requires
        n <= start.len(),
    ensures
        forall|j: int|
            0 <= j < launch_positions(start, n, running, suppressed).len() ==> {
                let p = #[trigger] launch_positions(start, n, running, suppressed)[j];
                &&& 0 <= p < n
                &&& !running.contains(start[p])
                &&& !suppressed.contains(start[p])
            },
    decreases n,
{
    if n > 0 {
        let prev = launch_positions(start, (n - 1) as nat, running, suppressed);
        let all = launch_positions(start, n, running, suppressed);
        lemma_launch_positions_facts(start, (n - 1) as nat, running, suppressed);
        assert forall|j: int| 0 <= j < all.len() implies {
            let p = #[trigger] all[j];
            &&& 0 <= p < n
            &&& !running.contains(start[p])
            &&& !suppressed.contains(start[p])
        } by {
            if j < prev.len() {
                assert(all[j] == prev[j]);
            }
        }
    }
}

/// The manager stops only processes it launched and still tracks: every
/// instance a round kills was running, and is no longer running after it.
pub proof fn lemma_kills_only_launched(
    running: Set<Seq<char>>,
    wanted: Set<Seq<char>>,
    stop: Set<Seq<char>>,
    exited: Set<Seq<char>>,
)
    ensures
        to_kill(running, wanted, stop, exited).subset_of(running),
        to_kill(running, wanted, stop, exited).disjoint(still_running(running, wanted, stop, exited)),
{
}

/// An add-on whose process exited on its own, and whose instance the plan
/// does not stop, is forgotten and held back: the round does not launch it
/// again.
pub proof fn lemma_exited_held_back(
    running: Set<Seq<char>>,
    suppressed: Set<Seq<char>>,
    start: Seq<Seq<char>>,
    keep: Seq<Seq<char>>,
    stop: Set<Seq<char>>,
    exited: Set<Seq<char>>,
    id: Seq<char>,
)
    requires
        running.contains(id),
        exited.contains(id),
        !stop.contains(id),
    ensures
        ({
            let wanted = wanted_ids(start, keep);
            let r = still_running(running, wanted, stop, exited);
            let u = still_suppressed(suppressed, running, wanted, stop, exited);
            let launch = launch_positions(start, start.len(), r, u);
            &&& !r.contains(id)
            &&& u.contains(id)
            &&& forall|j: int| 0 <= j < launch.len() ==> start[#[trigger] launch[j]] != id
        }),
{
    let wanted = wanted_ids(start, keep);
    let r = still_running(running, wanted, stop, exited);
    let u = still_suppressed(suppressed, running, wanted, stop, exited);
    lemma_launch_positions_facts(start, start.len(), r, u);
}

/// An instance held back from relaunch stays held back, and is not launched,
/// in every round whose plan still wants it and does not stop it.
pub proof fn lemma_held_back_not_relaunched(
    running: Set<Seq<char>>,
    suppressed: Set<Seq<char>>,
    start: Seq<Seq<char>>,
    keep: Seq<Seq<char>>,
    stop: Set<Seq<char>>,
    exited: Set<Seq<char>>,
    id: Seq<char>,
)
    requires
        suppressed.contains(id),
        wanted_ids(start, keep).contains(id),
        !stop.contains(id),
    ensures
        ({
            let wanted = wanted_ids(start, keep);
            let r = still_running(running, wanted, stop, exited);
            let u = still_suppressed(suppressed, running, wanted, stop, exited);
            let launch = launch_positions(start, start.len(), r, u);
            &&& u.contains(id)
            &&& forall|j: int| 0 <= j < launch.len() ==> start[#[trigger] launch[j]] != id
        }),
{
    let wanted = wanted_ids(start, keep);
    let r = still_running(running, wanted, stop, exited);
    let u = still_suppressed(suppressed, running, wanted, stop, exited);
    lemma_launch_positions_facts(start, start.len(), r, u);
}

/// A round never launches an instance twice, nor one whose process it
/// keeps.
pub proof fn lemma_launch_distinct(
    start: Seq<Seq<char>>,
    n: nat,
    running: Set<Seq<char>>,
    suppressed: Set<Seq<char>>,
)
    requires
        n <= start.len(),
    ensures
        forall|a: int, b: int|
            0 <= a < b < launch_positions(start, n, running, suppressed).len() ==> start[launch_positions(
                start,
                n,
                running,
                suppressed,
            )[a]] != start[launch_positions(start, n, running, suppressed)[b]],
    decreases n,
{
    if n > 0 {
        let prev = launch_positions(start, (n - 1) as nat, running, suppressed);
        lemma_launch_distinct(start, (n - 1) as nat, running, suppressed);
        lemma_launch_positions_facts(start, (n - 1) as nat, running, suppressed);
        let i = n - 1;
        assert forall|a: int| 0 <= a < prev.len() && !start.take(i).contains(start[i]) implies start[prev[a]]
            != start[i] by {
            let p = prev[a];
            assert(0 <= p < i);
            assert(start.take(i)[p] == start[p]);
        }
    }
}

/// Marking kept instances never adds an id that was absent, is not held
/// alive, and is not the trimmed form of one held alive.
proof fn lemma_mark_kept_excludes(s: Set<Seq<char>>, keep: Seq<Seq<char>>, alive: Set<Seq<char>>, id: Seq<char>)
    requires
        !s.contains(id),
        !alive.contains(id),
        forall|k: Seq<char>| #[trigger] alive.contains(k) ==> trim(k) != id,
    ensures
        !mark_kept(s, keep, alive).contains(id),
    decreases keep.len(),
{
    if keep.len() > 0 {
        lemma_mark_kept_excludes(s, keep.drop_last(), alive, id);
    }
}

/// One supervisor round, in one statement. It kills only processes it
/// holds, and holds none of them afterwards; what it still holds it held
/// before. It launches an instance of the plan only when it holds no
/// process for it and does not hold it back, and each at most once. A
/// process that exited on its own, unless its instance is stopped, is no
/// longer held, is held back, and its instance is not left marked present
/// (unless a process still held has an id that trims to the same one). A
/// launch that fails is held back and marked absent by `record_launch`.
pub proof fn lemma_supervisor_round(
    running: Set<Seq<char>>,
    suppressed: Set<Seq<char>>,
    instances: Set<Seq<char>>,
    start: Seq<Seq<char>>,
    keep: Seq<Seq<char>>,
    stop: Set<Seq<char>>,
    exited: Set<Seq<char>>,
)
    ensures
        ({
            let wanted = wanted_ids(start, keep);
            let alive = still_running(running, wanted, stop, exited);
            let held_back = still_suppressed(suppressed, running, wanted, stop, exited);
            let kill = to_kill(running, wanted, stop, exited);
            let launch = launch_positions(start, start.len(), alive, held_back);
            let marked = instances_after_round(instances, running, keep, wanted, stop, exited);
            &&& kill.subset_of(running)
            &&& kill.disjoint(alive)
            &&& alive.subset_of(running)
            &&& forall|j: int|
                0 <= j < launch.len() ==> {
                    let p = #[trigger] launch[j];
                    &&& 0 <= p < start.len()
                    &&& !alive.contains(start[p])
                    &&& !held_back.contains(start[p])
                }
            &&& forall|a: int, b: int| 0 <= a < b < launch.len() ==> start[launch[a]] != start[launch[b]]
            &&& forall|id: Seq<char>|
                running.contains(id) && #[trigger] exited.contains(id) && !stop.contains(id) ==> {
                    &&& !alive.contains(id)
                    &&& held_back.contains(id)
                    &&& (forall|k: Seq<char>| #[trigger] alive.contains(k) ==> trim(k) != id) ==> !marked.contains(id)
                }
        }),
{
    let wanted = wanted_ids(start, keep);
    let alive = still_running(running, wanted, stop, exited);
    let held_back = still_suppressed(suppressed, running, wanted, stop, exited);
    lemma_kills_only_launched(running, wanted, stop, exited);
    lemma_launch_positions_facts(start, start.len(), alive, held_back);
    lemma_launch_distinct(start, start.len(), alive, held_back);
    assert forall|id: Seq<char>|
        running.contains(id) && #[trigger] exited.contains(id) && !stop.contains(id) implies {
            &&& !alive.contains(id)
            &&& held_back.contains(id)
            &&& (forall|k: Seq<char>| #[trigger] alive.contains(k) ==> trim(k) != id) ==> !instances_after_round(
                instances,
                running,
                keep,
                wanted,
                stop,
                exited,
            ).contains(id)
        } by {
        if forall|k: Seq<char>| #[trigger] alive.contains(k) ==> trim(k) != id {
            let base = instances.difference(stop.union(running.difference(alive)));
            lemma_mark_kept_excludes(base, keep, alive, id);
        }
    }
}

} // verus!
