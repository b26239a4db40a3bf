//! Which add-on instances should run for the active spaces, the
//! environment each one is started with, and the start/keep/stop plan that
//! brings the running instances in line.
use crate::addons::{addons_view, AddonRecord, AddonRecordView};
use crate::order::{keys_lt, lemma_insert_by_key_at, lemma_keys_lt_pair, sort_by_key};
use crate::spaces::{
    connected_members_of, first_space_index, lemma_first_space_index_facts, SpaceKind, SpaceRecord, SpaceRecordView,
    SpaceStore,
};
use crate::strmap::StrMap;
use crate::strset::StrSet;
use crate::text::{
    clone_strings, lemma_filter_push, lemma_filter_strictly_sorted, lemma_strictly_sorted_unique, sorted_seq_of,
    str_eq, string_lt, strictly_sorted,
};
use vstd::prelude::*;
use vstd::string::StringExecFns;

verus! {

/// One add-on instance that should run in one space.
pub struct SpaceAddonInstancePlan {
    pub instance_id: String,
    pub space_id: String,
    pub space_name: String,
    pub space_kind: SpaceKind,
    pub addon_id: String,
    pub addon_name: String,
    pub executable: String,
    pub connected_members: Vec<String>,
}

pub struct InstancePlanView {
    pub instance_id: Seq<char>,
    pub space_id: Seq<char>,
    pub space_name: Seq<char>,
    pub space_kind: SpaceKind,
    pub addon_id: Seq<char>,
    pub addon_name: Seq<char>,
    pub executable: Seq<char>,
    pub connected_members: Seq<Seq<char>>,
}

impl View for SpaceAddonInstancePlan {
    type V = InstancePlanView;

    open spec fn view(&self) -> InstancePlanView {
        InstancePlanView {
            instance_id: self.instance_id@,
            space_id: self.space_id@,
            space_name: self.space_name@,
            space_kind: self.space_kind,
            addon_id: self.addon_id@,
            addon_name: self.addon_name@,
            executable: self.executable@,
            connected_members: self.connected_members.deep_view(),
        }
    }
}

impl Clone for SpaceAddonInstancePlan {
    fn clone(&self) -> (r: Self)
        ensures
            r@ == self@,
    {
        SpaceAddonInstancePlan {
            instance_id: self.instance_id.clone(),
            space_id: self.space_id.clone(),
            space_name: self.space_name.clone(),
            space_kind: self.space_kind,
            addon_id: self.addon_id.clone(),
            addon_name: self.addon_name.clone(),
            executable: self.executable.clone(),
            connected_members: clone_strings(&self.connected_members),
        }
    }
}

pub open spec fn plans_view(s: Seq<SpaceAddonInstancePlan>) -> Seq<InstancePlanView> {
    s.map_values(|p: SpaceAddonInstancePlan| p@)
}

/// What an add-on instance is started with.
pub struct SpaceAddonRuntimeContext {
    pub instance_id: String,
    pub addon_id: String,
    pub executable: String,
    pub env: StrMap<String>,
}

/// Instances to start, to keep running, and to stop.
pub struct SpaceAddonSyncPlan {
    pub start: Vec<SpaceAddonInstancePlan>,
    pub keep: Vec<SpaceAddonInstancePlan>,
    pub stop: Vec<String>,
}

/// The name of a space kind in an add-on's environment.
pub open spec fn kind_env(kind: SpaceKind) -> Seq<char> {
    match kind {
        SpaceKind::Direct => "direct"@,
        SpaceKind::Group => "group"@,
    }
}

fn space_kind_env(kind: &SpaceKind) -> (r: String)
    ensures
        r@ == kind_env(*kind),
{
    match kind {
        SpaceKind::Direct => "direct".to_owned(),
        SpaceKind::Group => "group".to_owned(),
    }
}

/// The environment an instance is started with; the connected members are
/// a comma-separated list.
pub open spec fn runtime_env(p: InstancePlanView, core_api_addr: Seq<char>) -> Map<Seq<char>, Seq<char>> {
    map![
        "LOCALLINK_ADDON_ID"@ => p.addon_id,
        "LOCALLINK_ADDON_INSTANCE_ID"@ => p.instance_id,
        "LOCALLINK_CORE_API_ADDR"@ => core_api_addr,
        "LOCALLINK_SPACE_ID"@ => p.space_id,
        "LOCALLINK_SPACE_KIND"@ => kind_env(p.space_kind),
        "LOCALLINK_SPACE_NAME"@ => p.space_name,
        "LOCALLINK_CONNECTED_MEMBERS"@ => crate::text::joined(p.connected_members, ","@),
    ]
}

impl SpaceAddonInstancePlan {
    /// The instance's start context: ids, executable, and its environment.
    pub fn runtime_context(&self, core_api_addr: &str) -> (r: SpaceAddonRuntimeContext)
        ensures
            r.instance_id@ == self.instance_id@,
            r.addon_id@ == self.addon_id@,
            r.executable@ == self.executable@,
            r.env@ == runtime_env(self@, core_api_addr@),
    {
        let mut env: StrMap<String> = StrMap::new();
        env.insert("LOCALLINK_ADDON_ID".to_owned(), self.addon_id.clone());
        env.insert("LOCALLINK_ADDON_INSTANCE_ID".to_owned(), self.instance_id.clone());
        env.insert("LOCALLINK_CORE_API_ADDR".to_owned(), core_api_addr.to_owned());
        env.insert("LOCALLINK_SPACE_ID".to_owned(), self.space_id.clone());
        env.insert("LOCALLINK_SPACE_KIND".to_owned(), space_kind_env(&self.space_kind));
        env.insert("LOCALLINK_SPACE_NAME".to_owned(), self.space_name.clone());
        env.insert("LOCALLINK_CONNECTED_MEMBERS".to_owned(), crate::text::join_strings(&self.connected_members, ","));
        proof {
            assert(env@ =~= runtime_env(self@, core_api_addr@));
        }
        SpaceAddonRuntimeContext {
            instance_id: self.instance_id.clone(),
            addon_id: self.addon_id.clone(),
            executable: self.executable.clone(),
            env,
        }
    }
}

/// The index of the last add-on with the given id: the lookup by id keeps
/// the last of several add-ons that share one.
pub open spec fn last_addon_index(addons: Seq<AddonRecordView>, id: Seq<char>) -> Option<int>
    decreases addons.len(),
{
    if addons.len() == 0 {
        None
    } else if addons.last().id == id {
        Some(addons.len() - 1)
    } else {
        last_addon_index(addons.drop_last(), id)
    }
}

proof fn lemma_last_addon_index(addons: Seq<AddonRecordView>, id: Seq<char>)
    ensures
        last_addon_index(addons, id) matches Some(i) ==> 0 <= i < addons.len() && addons[i].id == id,
    decreases addons.len(),
{
    if addons.len() > 0 && addons.last().id != id {
        lemma_last_addon_index(addons.drop_last(), id);
    }
}

/// The id of an add-on's instance in a space.
pub open spec fn instance_id_of(space_id: Seq<char>, addon_id: Seq<char>) -> Seq<char> {
    space_id + ":"@ + addon_id
}

/// The plan for running `addon` in `space`.
pub open spec fn plan_of(space: SpaceRecordView, addon: AddonRecordView, members: Seq<Seq<char>>) -> InstancePlanView {
    InstancePlanView {
        instance_id: instance_id_of(space.space_id, addon.id),
        space_id: space.space_id,
        space_name: space.name,
        space_kind: space.kind,
        addon_id: addon.id,
        addon_name: addon.name,
        executable: addon.executable,
        connected_members: members,
    }
}

/// Whether the add-on `a` runs in `space`: the space enables it and an
/// installed add-on has its id.
pub open spec fn runs_in(space: SpaceRecordView, addons: Seq<AddonRecordView>, a: Seq<char>) -> bool {
    space.addons.contains_key(a) && space.addons[a] && last_addon_index(addons, a) is Some
}

/// The plans for the add-on ids `ids` of `space`, in the order of `ids`.
pub open spec fn plans_for_ids(
    space: SpaceRecordView,
    addons: Seq<AddonRecordView>,
    members: Seq<Seq<char>>,
    ids: Seq<Seq<char>>,
) -> Seq<InstancePlanView>
    decreases ids.len(),
{
    if ids.len() == 0 {
        Seq::empty()
    } else {
        let rest = plans_for_ids(space, addons, members, ids.drop_last());
        let a = ids.last();
        if runs_in(space, addons, a) {
            rest.push(plan_of(space, addons[last_addon_index(addons, a)->Some_0], members))
        } else {
            rest
        }
    }
}

/// The plans contributed by the `k`-th space: none unless it is active;
/// else those of the first space with its id, in add-on id order, with the
/// `k`-th space's connected members.
pub open spec fn space_plans(
    spaces: Seq<SpaceRecordView>,
    k: int,
    addons: Seq<AddonRecordView>,
    connected: Set<Seq<char>>,
) -> Seq<InstancePlanView> {
    if !spaces[k].active {
        Seq::empty()
    } else {
        match first_space_index(spaces, spaces[k].space_id) {
            Some(f) => plans_for_ids(
                spaces[f],
                addons,
                connected_members_of(spaces[k].members, connected),
                sorted_seq_of(spaces[f].addons.dom()),
            ),
            None => Seq::empty(),
        }
    }
}

/// The plans of the first `n` spaces, space after space.
pub open spec fn raw_plans(
    spaces: Seq<SpaceRecordView>,
    n: int,
    addons: Seq<AddonRecordView>,
    connected: Set<Seq<char>>,
) -> Seq<InstancePlanView>
    decreases n,
{
    if n <= 0 {
        Seq::empty()
    } else {
        raw_plans(spaces, n - 1, addons, connected) + space_plans(spaces, n - 1, addons, connected)
    }
}

/// Plans are ordered by space id, then add-on id.
pub open spec fn by_space_addon() -> spec_fn(InstancePlanView) -> Seq<Seq<char>> {
    |p: InstancePlanView| seq![p.space_id, p.addon_id]
}

/// The index of the last add-on with the given id.
fn find_last_addon(addons: &Vec<AddonRecord>, id: &str) -> (r: Option<usize>)
    ensures
        match r {
            Some(i) => i < addons@.len() && last_addon_index(addons_view(addons@), id@) == Some(i as int),
            None => last_addon_index(addons_view(addons@), id@) is None,
        },
{
    let ghost av = addons_view(addons@);
    let mut i: usize = addons.len();
    proof {
        assert(av.take(i as int) == av);
    }
    while i > 0
        invariant
            av == addons_view(addons@),
            i <= av.len(),
            last_addon_index(av, id@) == last_addon_index(av.take(i as int), id@),
        decreases i,
    {
        proof {
            assert(av.take(i as int).last() == addons@[i - 1]@);
            assert(av.take(i as int).drop_last() == av.take(i - 1));
        }
        if str_eq(addons[i - 1].id.as_str(), id) {
            return Some(i - 1);
        }
        i = i - 1;
    }
    None
}

/// Appends the plans of `space` for the add-ons it enables, in add-on id
/// order, with the given connected members.
fn push_space_plans(
    out: &mut Vec<SpaceAddonInstancePlan>,
    space: &SpaceRecord,
    addons: &Vec<AddonRecord>,
    members: &Vec<String>,
)
    ensures
        plans_view(final(out)@) == plans_view(old(out)@) + plans_for_ids(
            space@,
            addons_view(addons@),
            members.deep_view(),
            sorted_seq_of(space@.addons.dom()),
        ),
{
    let ghost av = addons_view(addons@);
    let ghost start = plans_view(out@);
    let keys = space.addons.sorted_keys();
    let ghost kv = keys.deep_view();
    proof {
        let w = choose|r: Seq<Seq<char>>| strictly_sorted(r) && r.to_set() == space@.addons.dom();
        assert(strictly_sorted(kv) && kv.to_set() == space@.addons.dom());
        lemma_strictly_sorted_unique(kv, w);
        assert(plans_view(out@) =~= start + plans_for_ids(space@, av, members.deep_view(), kv.take(0)));
    }
    let mut j: usize = 0;
    while j < keys.len()
        invariant
            av == addons_view(addons@),
            kv == keys.deep_view(),
            kv == sorted_seq_of(space@.addons.dom()),
            kv.to_set() == space@.addons.dom(),
            j <= kv.len(),
            plans_view(out@) == start + plans_for_ids(space@, av, members.deep_view(), kv.take(j as int)),
        decreases kv.len() - j,
    {
        let a = &keys[j];
        proof {
            assert(kv[j as int] == a@);
            assert(kv.take(j + 1).drop_last() == kv.take(j as int));
            assert(kv.take(j + 1).last() == a@);
            assert(space@.addons.dom().contains(a@));
        }
        let enabled = match space.addons.get(a.as_str()) {
            Some(st) => st.enabled,
            None => false,
        };
        if enabled {
            match find_last_addon(addons, a.as_str()) {
                Some(i) => {
                    let addon = &addons[i];
                    proof {
                        lemma_last_addon_index(av, a@);
                        assert(av[i as int] == addon@);
                    }
                    let instance_id = space.space_id.clone().concat(":").concat(addon.id.as_str());
                    let plan = SpaceAddonInstancePlan {
                        instance_id,
                        space_id: space.space_id.clone(),
                        space_name: space.name.clone(),
                        space_kind: space.kind,
                        addon_id: addon.id.clone(),
                        addon_name: addon.name.clone(),
                        executable: addon.executable.clone(),
                        connected_members: clone_strings(members),
                    };
                    let ghost before = plans_view(out@);
                    out.push(plan);
                    proof {
                        assert(plan@ == plan_of(space@, av[i as int], members.deep_view()));
                        assert(plans_view(out@) =~= before.push(plan@));
                    }
                },
                None => {},
            }
        }
        j = j + 1;
    }
    proof {
        assert(kv.take(kv.len() as int) == kv);
    }
}

/// Whether plan `a` comes before plan `b`: by space id, then add-on id.
fn plan_before(a: &SpaceAddonInstancePlan, b: &SpaceAddonInstancePlan) -> (r: bool)
    ensures
        r == keys_lt(by_space_addon()(a@), by_space_addon()(b@)),
{
    proof {
        lemma_keys_lt_pair(a.space_id@, a.addon_id@, b.space_id@, b.addon_id@);
    }
    if !str_eq(a.space_id.as_str(), b.space_id.as_str()) {
        string_lt(&a.space_id, &b.space_id)
    } else {
        string_lt(&a.addon_id, &b.addon_id)
    }
}

/// The plans sorted by space id, then add-on id; equal keys keep their order.
fn sort_plans(plans: Vec<SpaceAddonInstancePlan>) -> (r: Vec<SpaceAddonInstancePlan>)
    ensures
        plans_view(r@) == sort_by_key(plans_view(plans@), by_space_addon()),
{
    let ghost key = by_space_addon();
    let ghost src = plans_view(plans@);
    let mut out: Vec<SpaceAddonInstancePlan> = Vec::new();
    let mut i: usize = 0;
    while i < plans.len()
        invariant
            src == plans_view(plans@),
            key == by_space_addon(),
            i <= plans@.len(),
            plans_view(out@) == sort_by_key(src.take(i as int), key),
        decreases plans@.len() - i,
    {
        let x = plans[i].clone();
        let mut p: usize = out.len();
        while p > 0 && plan_before(&x, &out[p - 1])
            invariant
                p <= out@.len(),
                key == by_space_addon(),
                forall|j: int| p <= j < out@.len() ==> keys_lt(key(x@), #[trigger] key(out@[j]@)),
            decreases p,
        {
            p = p - 1;
        }
        proof {
            let o = plans_view(out@);
            assert forall|j: int| p <= j < o.len() implies keys_lt(key(x@), #[trigger] key(o[j])) by {
                assert(o[j] == out@[j]@);
            }
            if p > 0 {
                assert(o[p - 1] == out@[p - 1]@);
            }
            lemma_insert_by_key_at(o, x@, key, p as int);
            assert(src.take(i + 1).drop_last() == src.take(i as int));
            assert(src.take(i + 1).last() == x@);
        }
        let ghost before = plans_view(out@);
        out.insert(p, x);
        proof {
            assert(plans_view(out@) =~= before.insert(p as int, plans@[i as int]@));
        }
        i = i + 1;
    }
    proof {
        assert(src.take(plans@.len() as int) == src);
    }
    out
}

/// The add-on instances that should run: for each active space, in store
/// order, the enabled add-ons that are installed, sorted by space id then
/// add-on id.
pub fn plan_space_addon_instances(store: &SpaceStore, addons: &Vec<AddonRecord>, connected_peer_ids: &StrSet) -> (r: Vec<SpaceAddonInstancePlan>)
    ensures
        plans_view(r@) == sort_by_key(
            raw_plans(store@, store@.len() as int, addons_view(addons@), connected_peer_ids@),
            by_space_addon(),
        ),
{
    let ghost sv = store@;
    let ghost av = addons_view(addons@);
    let ghost cv = connected_peer_ids@;
    let activations = store.activation_states(connected_peer_ids);
    let mut raw: Vec<SpaceAddonInstancePlan> = Vec::new();
    let mut k: usize = 0;
    while k < activations.len()
        invariant
            sv == store@,
            av == addons_view(addons@),
            cv == connected_peer_ids@,
            activations@.len() == sv.len(),
            forall|i: int| 0 <= i < sv.len() ==> (#[trigger] activations@[i])@ == crate::spaces::activation_of(sv[i], cv),
            k <= sv.len(),
            plans_view(raw@) == raw_plans(sv, k as int, av, cv),
        decreases sv.len() - k,
    {
        let act = &activations[k];
        proof {
            assert(act@ == crate::spaces::activation_of(sv[k as int], cv));
        }
        let ghost before = plans_view(raw@);
        if act.active {
            match store.find_space(act.space_id.as_str()) {
                Some(f) => {
                    push_space_plans(&mut raw, &store.spaces[f], addons, &act.connected_members);
                    proof {
                        assert(store.spaces@[f as int]@ == sv[f as int]);
                    }
                },
                None => {
                    proof {
                        assert(plans_view(raw@) =~= before + Seq::<InstancePlanView>::empty());
                    }
                },
            }
        } else {
            proof {
                assert(plans_view(raw@) =~= before + Seq::<InstancePlanView>::empty());
            }
        }
        k = k + 1;
    }
    sort_plans(raw)
}

/// The ids of the desired instances.
pub open spec fn desired_ids(desired: Seq<InstancePlanView>) -> Set<Seq<char>> {
    desired.map_values(|p: InstancePlanView| p.instance_id).to_set()
}

pub open spec fn is_running(running: Set<Seq<char>>) -> spec_fn(InstancePlanView) -> bool {
    |p: InstancePlanView| running.contains(p.instance_id)
}

pub open spec fn not_running(running: Set<Seq<char>>) -> spec_fn(InstancePlanView) -> bool {
    |p: InstancePlanView| !running.contains(p.instance_id)
}

/// Whether the desired plans hold an instance id.
fn has_instance(desired: &Vec<SpaceAddonInstancePlan>, id: &str) -> (r: bool)
    ensures
        r == desired_ids(plans_view(desired@)).contains(id@),
{
    let ghost ids = plans_view(desired@).map_values(|p: InstancePlanView| p.instance_id);
    let mut i: usize = 0;
    while i < desired.len()
        invariant
            ids == plans_view(desired@).map_values(|p: InstancePlanView| p.instance_id),
            i <= desired@.len(),
            forall|j: int| 0 <= j < i ==> ids[j] != id@,
        decreases desired@.len() - i,
    {
        proof {
            assert(ids[i as int] == desired@[i as int].instance_id@);
        }
        if str_eq(desired[i].instance_id.as_str(), id) {
            proof {
                assert(ids.contains(id@));
            }
            return true;
        }
        i = i + 1;
    }
    proof {
        if ids.to_set().contains(id@) {
            let j = choose|j: int| 0 <= j < ids.len() && ids[j] == id@;
            assert(ids[j] != id@);
        }
    }
    false
}

/// Brings the running instances in line with the desired ones: desired and
/// running are kept, desired and not running are started, and running ids no
/// plan wants are stopped, in increasing order.
pub fn plan_space_addon_sync(desired: &Vec<SpaceAddonInstancePlan>, running_instance_ids: &StrSet) -> (r: SpaceAddonSyncPlan)
    ensures
        plans_view(r.keep@) == plans_view(desired@).filter(is_running(running_instance_ids@)),
        plans_view(r.start@) == plans_view(desired@).filter(not_running(running_instance_ids@)),
        r.stop.deep_view() == sorted_seq_of(running_instance_ids@.difference(desired_ids(plans_view(desired@)))),
{
    let ghost dv = plans_view(desired@);
    let ghost rv = running_instance_ids@;
    let mut start: Vec<SpaceAddonInstancePlan> = Vec::new();
    let mut keep: Vec<SpaceAddonInstancePlan> = Vec::new();
    let mut i: usize = 0;
    while i < desired.len()
        invariant
            dv == plans_view(desired@),
            rv == running_instance_ids@,
            i <= dv.len(),
            plans_view(keep@) == dv.take(i as int).filter(is_running(rv)),
            plans_view(start@) == dv.take(i as int).filter(not_running(rv)),
        decreases dv.len() - i,
    {
        let plan = &desired[i];
        proof {
            assert(dv.take(i + 1) == dv.take(i as int).push(plan@));
            lemma_filter_push(dv.take(i as int), is_running(rv), plan@);
            lemma_filter_push(dv.take(i as int), not_running(rv), plan@);
        }
        if running_instance_ids.contains(plan.instance_id.as_str()) {
            let ghost before = plans_view(keep@);
            keep.push(plan.clone());
            proof {
                assert(plans_view(keep@) =~= before.push(plan@));
            }
        } else {
            let ghost before = plans_view(start@);
            start.push(plan.clone());
            proof {
                assert(plans_view(start@) =~= before.push(plan@));
            }
        }
        i = i + 1;
    }
    proof {
        assert(dv.take(dv.len() as int) == dv);
    }
    let running = running_instance_ids.to_sorted_vec();
    let ghost sv = running.deep_view();
    let ghost ids = desired_ids(dv);
    let mut stop: Vec<String> = Vec::new();
    let mut j: usize = 0;
    while j < running.len()
        invariant
            sv == running.deep_view(),
            ids == desired_ids(plans_view(desired@)),
            j <= sv.len(),
            stop.deep_view() == sv.take(j as int).filter(|x: Seq<char>| !ids.contains(x)),
        decreases sv.len() - j,
    {
        let x = &running[j];
        proof {
            assert(sv[j as int] == x@);
            assert(sv.take(j + 1) == sv.take(j as int).push(x@));
            lemma_filter_push(sv.take(j as int), |x: Seq<char>| !ids.contains(x), x@);
        }
        if !has_instance(desired, x.as_str()) {
            let ghost before = stop.deep_view();
            stop.push(x.clone());
            proof {
                assert(stop.deep_view() =~= before.push(x@));
            }
        }
        j = j + 1;
    }
    proof {
        assert(sv.take(sv.len() as int) == sv);
        lemma_filter_strictly_sorted(sv, |x: Seq<char>| !ids.contains(x));
        assert(sv.to_set().filter(|x: Seq<char>| !ids.contains(x)) =~= rv.difference(ids));
        let w = choose|r: Seq<Seq<char>>| strictly_sorted(r) && r.to_set() == rv.difference(ids);
        lemma_strictly_sorted_unique(stop.deep_view(), w);
    }
    SpaceAddonSyncPlan { start, keep, stop }
}

/// The plan from the current spaces, add-ons and connections to the
/// instances that are running now.
pub fn plan_space_addon_delta_from_state(
    spaces: &SpaceStore,
    addons: &Vec<AddonRecord>,
    connected_peer_ids: &StrSet,
    current_instance_ids: &StrSet,
) -> (r: SpaceAddonSyncPlan)
    ensures
        ({
            let desired = sort_by_key(
                raw_plans(spaces@, spaces@.len() as int, addons_view(addons@), connected_peer_ids@),
                by_space_addon(),
            );
            &&& plans_view(r.keep@) == desired.filter(is_running(current_instance_ids@))
            &&& plans_view(r.start@) == desired.filter(not_running(current_instance_ids@))
            &&& r.stop.deep_view() == sorted_seq_of(current_instance_ids@.difference(desired_ids(desired)))
        }),
{
    let desired = plan_space_addon_instances(spaces, addons, connected_peer_ids);
    plan_space_addon_sync(&desired, current_instance_ids)
}

/// What every planned instance must be: for a space of the store that is
/// switched on; for an add-on that the first space with that id enables and
/// that is installed, started from that add-on's executable; named by space
/// and add-on id; and with only connected peers as its connected members.
pub open spec fn plan_fits(
    spaces: Seq<SpaceRecordView>,
    addons: Seq<AddonRecordView>,
    connected: Set<Seq<char>>,
    p: InstancePlanView,
) -> bool {
    &&& exists|k: int| 0 <= k < spaces.len() && (#[trigger] spaces[k]).space_id == p.space_id && spaces[k].active
    &&& first_space_index(spaces, p.space_id) matches Some(f) && spaces[f].addons.contains_key(p.addon_id)
        && spaces[f].addons[p.addon_id]
    &&& exists|a: int| 0 <= a < addons.len() && (#[trigger] addons[a]).id == p.addon_id && addons[a].executable == p.executable
    &&& p.instance_id == p.space_id + ":"@ + p.addon_id
    &&& forall|m: int| 0 <= m < p.connected_members.len() ==> connected.contains(#[trigger] p.connected_members[m])
}

/// Every plan for a space's add-ons names that space and an add-on the
/// space enables and that is installed.
proof fn lemma_plans_for_ids_fit(
    space: SpaceRecordView,
    addons: Seq<AddonRecordView>,
    members: Seq<Seq<char>>,
    ids: Seq<Seq<char>>,
)
    ensures
        forall|j: int|
            0 <= j < plans_for_ids(space, addons, members, ids).len() ==> {
                let p = #[trigger] plans_for_ids(space, addons, members, ids)[j];
                &&& p.space_id == space.space_id
                &&& space.addons.contains_key(p.addon_id) && space.addons[p.addon_id]
                &&& exists|a: int| 0 <= a < addons.len() && (#[trigger] addons[a]).id == p.addon_id && addons[a].executable == p.executable
                &&& p.instance_id == p.space_id + ":"@ + p.addon_id
                &&& p.connected_members == members
            },
    decreases ids.len(),
{
    if ids.len() > 0 {
        lemma_plans_for_ids_fit(space, addons, members, ids.drop_last());
        let a = ids.last();
        lemma_last_addon_index(addons, a);
        let all = plans_for_ids(space, addons, members, ids);
        let rest = plans_for_ids(space, addons, members, ids.drop_last());
        if runs_in(space, addons, a) {
            let ai = last_addon_index(addons, a)->Some_0;
            assert forall|j: int| 0 <= j < all.len() implies {
                let p = #[trigger] all[j];
                &&& p.space_id == space.space_id
                &&& space.addons.contains_key(p.addon_id) && space.addons[p.addon_id]
                &&& exists|a: int| 0 <= a < addons.len() && (#[trigger] addons[a]).id == p.addon_id && addons[a].executable == p.executable
                &&& p.instance_id == p.space_id + ":"@ + p.addon_id
                &&& p.connected_members == members
            } by {
                if j < rest.len() {
                    assert(all[j] == rest[j]);
                } else {
                    assert(all[j] == plan_of(space, addons[ai], members));
                    assert(addons[ai].id == a);
                }
            }
        }
    }
}

proof fn lemma_raw_plans_fit(
    spaces: Seq<SpaceRecordView>,
    n: int,
    addons: Seq<AddonRecordView>,
    connected: Set<Seq<char>>,
)
    requires
        n <= spaces.len(),
    ensures
        forall|j: int|
            0 <= j < raw_plans(spaces, n, addons, connected).len() ==> plan_fits(
                spaces,
                addons,
                connected,
                #[trigger] raw_plans(spaces, n, addons, connected)[j],
            ),
    decreases n,
{
    broadcast use vstd::seq_lib::group_filter_ensures;

    if n > 0 {
        lemma_raw_plans_fit(spaces, n - 1, addons, connected);
        let before = raw_plans(spaces, n - 1, addons, connected);
        let mine = space_plans(spaces, n - 1, addons, connected);
        let all = raw_plans(spaces, n, addons, connected);
        assert(all == before + mine);
        let k = n - 1;
        lemma_first_space_index_facts(spaces, spaces[k].space_id);
        let members = connected_members_of(spaces[k].members, connected);
        if spaces[k].active {
            if let Some(f) = first_space_index(spaces, spaces[k].space_id) {
                lemma_plans_for_ids_fit(spaces[f], addons, members, sorted_seq_of(spaces[f].addons.dom()));
            }
        }
        assert forall|m: int| 0 <= m < members.len() implies connected.contains(#[trigger] members[m]) by {
            spaces[k].members.lemma_filter_pred(|x: Seq<char>| connected.contains(x), m);
        }
        assert forall|j: int| 0 <= j < all.len() implies plan_fits(spaces, addons, connected, #[trigger] all[j]) by {
            if j < before.len() {
                assert(all[j] == before[j]);
            } else {
                assert(all[j] == mine[j - before.len()]);
                assert(spaces[k].active);
                let f = first_space_index(spaces, spaces[k].space_id)->Some_0;
                assert(spaces[f].space_id == spaces[k].space_id);
            }
        }
    }
}

/// Add-ons run only for spaces that are switched on: every planned
/// instance names a space of the store that is active, whatever peers are
/// connected, so a space that is off contributes no instance. Each planned
/// instance is moreover for an add-on that space enables and that is
/// installed, and lists only connected peers.
pub proof fn lemma_plans_only_for_active_spaces(
    spaces: Seq<SpaceRecordView>,
    addons: Seq<AddonRecordView>,
    connected: Set<Seq<char>>,
    plans: Seq<InstancePlanView>,
)
    requires
        plans == sort_by_key(raw_plans(spaces, spaces.len() as int, addons, connected), by_space_addon()),
    ensures
        forall|j: int|
            0 <= j < plans.len() ==> exists|k: int|
                0 <= k < spaces.len() && spaces[k].space_id == (#[trigger] plans[j]).space_id && spaces[k].active,
        forall|j: int| 0 <= j < plans.len() ==> plan_fits(spaces, addons, connected, #[trigger] plans[j]),
{
    broadcast use vstd::seq_lib::group_to_multiset_ensures;

    let raw = raw_plans(spaces, spaces.len() as int, addons, connected);
    lemma_raw_plans_fit(spaces, spaces.len() as int, addons, connected);
    crate::order::lemma_sort_by_key_sorted(raw, by_space_addon());
    assert forall|j: int| 0 <= j < plans.len() implies plan_fits(spaces, addons, connected, #[trigger] plans[j]) by {
        let p = plans[j];
        assert(plans.to_multiset().count(p) > 0);
        assert(raw.to_multiset().count(p) > 0);
        assert(raw.contains(p));
        let i = choose|i: int| 0 <= i < raw.len() && raw[i] == p;
        assert(plan_fits(spaces, addons, connected, raw[i]));
    }
    assert forall|j: int|
        0 <= j < plans.len() implies exists|k: int|
        0 <= k < spaces.len() && spaces[k].space_id == (#[trigger] plans[j]).space_id && spaces[k].active by {
        assert(plan_fits(spaces, addons, connected, plans[j]));
    }
}

} // verus!
