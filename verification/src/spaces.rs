//! Connection spaces: the local store of direct and group spaces, their
//! members and the add-ons each space wants running.
use crate::strmap::StrMap;
use crate::strset::StrSet;
use crate::text::{
    clone_strings, lemma_filter_push, lemma_strictly_sorted_unique, normalize_id_list, str_eq, strictly_sorted, trim,
    trim_str, trim_string, trimmed_nonempty_set,
};
use vstd::prelude::*;

verus! {

#[derive(Clone, Copy, Debug, PartialEq, Eq, Structural)]
pub enum SpaceKind {
    Direct,
    Group,
}

/// Whether an add-on should run in a space.
#[derive(Clone, Copy, Debug, PartialEq, Eq, Structural)]
pub struct SpaceAddonState {
    pub enabled: bool,
}

impl View for SpaceAddonState {
    type V = bool;

    open spec fn view(&self) -> bool {
        self.enabled
    }
}

pub struct SpaceRecord {
    pub space_id: String,
    pub name: String,
    pub kind: SpaceKind,
    pub active: bool,
    pub members: Vec<String>,
    pub addons: StrMap<SpaceAddonState>,
}

pub struct SpaceRecordView {
    pub space_id: Seq<char>,
    pub name: Seq<char>,
    pub kind: SpaceKind,
    pub active: bool,
    pub members: Seq<Seq<char>>,
    pub addons: Map<Seq<char>, bool>,
}

impl View for SpaceRecord {
    type V = SpaceRecordView;

    open spec fn view(&self) -> SpaceRecordView {
        SpaceRecordView {
            space_id: self.space_id@,
            name: self.name@,
            kind: self.kind,
            active: self.active,
            members: self.members.deep_view(),
            addons: self.addons@,
        }
    }
}

impl Clone for SpaceRecord {
    fn clone(&self) -> (r: Self)
        ensures
            r@ == self@,
    {
        SpaceRecord {
            space_id: self.space_id.clone(),
            name: self.name.clone(),
            kind: self.kind,
            active: self.active,
            members: clone_strings(&self.members),
            addons: self.addons.duplicate(),
        }
    }
}

/// The spaces this device knows, in the order they were created.
pub struct SpaceStore {
    pub spaces: Vec<SpaceRecord>,
}

pub open spec fn records_view(s: Seq<SpaceRecord>) -> Seq<SpaceRecordView> {
    s.map_values(|r: SpaceRecord| r@)
}

impl Default for SpaceStore {
    fn default() -> (s: Self)
        ensures
            s@.len() == 0,
    {
        SpaceStore { spaces: Vec::new() }
    }
}

impl View for SpaceStore {
    type V = Seq<SpaceRecordView>;

    open spec fn view(&self) -> Seq<SpaceRecordView> {
        records_view(self.spaces@)
    }
}

/// A space as seen with the set of currently connected peers.
pub struct SpaceActivationState {
    pub space_id: String,
    pub name: String,
    pub kind: SpaceKind,
    pub active: bool,
    pub connected_members: Vec<String>,
    pub missing_members: Vec<String>,
}

pub struct SpaceActivationView {
    pub space_id: Seq<char>,
    pub name: Seq<char>,
    pub kind: SpaceKind,
    pub active: bool,
    pub connected_members: Seq<Seq<char>>,
    pub missing_members: Seq<Seq<char>>,
}

impl View for SpaceActivationState {
    type V = SpaceActivationView;

    open spec fn view(&self) -> SpaceActivationView {
        SpaceActivationView {
            space_id: self.space_id@,
            name: self.name@,
            kind: self.kind,
            active: self.active,
            connected_members: self.connected_members.deep_view(),
            missing_members: self.missing_members.deep_view(),
        }
    }
}

/// One add-on's desired state in a space.
pub struct SpaceAddonDesiredState {
    pub addon_id: String,
    pub enabled: bool,
}

#[derive(Debug)]
pub enum SpaceError {
    EmptySpaceId,
    DuplicateSpaceId { space_id: String },
    EmptyAddonId,
    DirectSpaceHasManyMembers { space_id: String },
    UnknownSpace { space_id: String },
    SpaceExists { space_id: String },
    TargetNotMember { space_id: String },
    NoMembers { space_id: String },
}

/// Which rule a space broke while being repaired.
#[derive(PartialEq, Eq, Structural)]
pub enum RepairFault {
    EmptyId,
    DuplicateId,
    EmptyAddonId,
    DirectManyMembers,
}

/// The name a space ends up with: its trimmed name, or its id when that is blank.
pub open spec fn repaired_name(r: SpaceRecordView) -> Seq<char> {
    if trim(r.name).len() == 0 {
        trim(r.space_id)
    } else {
        trim(r.name)
    }
}

/// The trimmed, non-empty members, sorted, each once.
pub open spec fn normalized_members(m: Seq<Seq<char>>) -> Seq<Seq<char>> {
    choose|s: Seq<Seq<char>>| strictly_sorted(s) && s.to_set() == trimmed_nonempty_set(m)
}

pub open spec fn has_blank_key(a: Map<Seq<char>, bool>) -> bool {
    exists|k: Seq<char>| #[trigger] a.contains_key(k) && trim(k).len() == 0
}

/// `new` holds the add-ons of `old` under trimmed ids. Where two ids trim to
/// the same one, the value is one of theirs.
pub open spec fn addons_trimmed(old: Map<Seq<char>, bool>, new: Map<Seq<char>, bool>) -> bool {
    &&& forall|k: Seq<char>| #[trigger] old.contains_key(k) ==> new.contains_key(trim(k))
    &&& forall|k: Seq<char>|
        #[trigger] new.contains_key(k) ==> exists|j: Seq<char>|
            #[trigger] old.contains_key(j) && trim(j) == k && old[j] == new[k]
}

/// The first rule that `r` breaks, given the ids of the spaces before it.
pub open spec fn repair_fault(r: SpaceRecordView, seen: Set<Seq<char>>) -> Option<RepairFault> {
    if trim(r.space_id).len() == 0 {
        Some(RepairFault::EmptyId)
    } else if seen.contains(trim(r.space_id)) {
        Some(RepairFault::DuplicateId)
    } else if has_blank_key(r.addons) {
        Some(RepairFault::EmptyAddonId)
    } else if r.kind == SpaceKind::Direct && normalized_members(r.members).len() > 1 {
        Some(RepairFault::DirectManyMembers)
    } else {
        None
    }
}

/// `new` is `old` after repair stopped, at its first broken rule or at the end.
pub open spec fn repair_state(old: SpaceRecordView, seen: Set<Seq<char>>, new: SpaceRecordView) -> bool {
    &&& new.space_id == trim(old.space_id)
    &&& new.kind == old.kind
    &&& new.active == old.active
    &&& match repair_fault(old, seen) {
        Some(RepairFault::EmptyId) => {
            &&& new.name == trim(old.name)
            &&& new.members == old.members
            &&& new.addons == old.addons
        },
        Some(RepairFault::DuplicateId) => {
            &&& new.name == trim(old.name)
            &&& new.members == old.members
            &&& new.addons == old.addons
        },
        Some(RepairFault::EmptyAddonId) => {
            &&& new.name == repaired_name(old)
            &&& new.members == normalized_members(old.members)
            &&& new.addons == Map::<Seq<char>, bool>::empty()
        },
        _ => {
            &&& new.name == repaired_name(old)
            &&& new.members == normalized_members(old.members)
            &&& addons_trimmed(old.addons, new.addons)
        },
    }
}

/// The error that reports `fault` for the space `r`.
pub open spec fn reports_fault(e: SpaceError, fault: RepairFault, r: SpaceRecordView) -> bool {
    match fault {
        RepairFault::EmptyId => e is EmptySpaceId,
        RepairFault::DuplicateId => e matches SpaceError::DuplicateSpaceId { space_id } && space_id@
            == trim(r.space_id),
        RepairFault::EmptyAddonId => e is EmptyAddonId,
        RepairFault::DirectManyMembers => e matches SpaceError::DirectSpaceHasManyMembers {
            space_id,
        } && space_id@ == trim(r.space_id),
    }
}

/// The trimmed ids of the first `k` spaces.
pub open spec fn ids_before(s: Seq<SpaceRecordView>, k: int) -> Set<Seq<char>> {
    Set::new(|x: Seq<char>| exists|i: int| 0 <= i < k && trim(#[trigger] s[i].space_id) == x)
}

/// Spaces `0..k` were repaired without breaking a rule.
pub open spec fn repaired_prefix(old: Seq<SpaceRecordView>, new: Seq<SpaceRecordView>, k: int) -> bool {
    &&& forall|i: int| 0 <= i < k ==> (#[trigger] repair_fault(old[i], ids_before(old, i))) is None
    &&& forall|i: int| 0 <= i < k ==> #[trigger] repair_state(old[i], ids_before(old, i), new[i])
}

/// `new` and `res` are what repairing the spaces `old` in order gives: every
/// space is repaired, or repair stops at the first space that breaks a rule,
/// leaving the later spaces as they were.
pub open spec fn store_repair(
    old: Seq<SpaceRecordView>,
    new: Seq<SpaceRecordView>,
    res: Result<(), SpaceError>,
) -> bool {
    &&& new.len() == old.len()
    &&& match res {
        Ok(_) => repaired_prefix(old, new, old.len() as int),
        Err(e) => exists|k: int|
            {
                &&& 0 <= k < old.len()
                &&& repaired_prefix(old, new, k)
                &&& #[trigger] repair_fault(old[k], ids_before(old, k)) is Some
                &&& reports_fault(e, repair_fault(old[k], ids_before(old, k))->Some_0, old[k])
                &&& repair_state(old[k], ids_before(old, k), new[k])
                &&& forall|i: int| k < i < old.len() ==> new[i] == old[i]
            },
    }
}

/// Trims, sorts and dedups member ids, dropping blank ones.
fn normalize_members(members: &Vec<String>) -> (r: Vec<String>)
    ensures
        r.deep_view() == normalized_members(members.deep_view()),
{
    let r = normalize_id_list(members);
    proof {
        let w = choose|s: Seq<Seq<char>>|
            strictly_sorted(s) && s.to_set() == trimmed_nonempty_set(members.deep_view());
        assert(strictly_sorted(r.deep_view()) && r.deep_view().to_set() == trimmed_nonempty_set(
            members.deep_view(),
        ));
        lemma_strictly_sorted_unique(r.deep_view(), w);
    }
    r
}

/// Re-keys the add-on states by trimmed id; fails on a blank id.
fn normalize_addons(addons: &StrMap<SpaceAddonState>) -> (r: Result<StrMap<SpaceAddonState>, SpaceError>)
    ensures
        match r {
            Ok(m) => !has_blank_key(addons@) && addons_trimmed(addons@, m@),
            Err(e) => has_blank_key(addons@) && e is EmptyAddonId,
        },
{
    addons.key_facts();
    let mut out: StrMap<SpaceAddonState> = StrMap::new();
    let n = addons.len();
    let mut i: usize = 0;
    while i < n
        invariant
            n == addons.key_seq().len(),
            i <= n,
            addons.key_seq().to_set() == addons@.dom(),
            forall|j: int|
                0 <= j < n ==> addons@[#[trigger] addons.key_seq()[j]]
                    == addons.entry_seq()[j].value@,
            forall|j: int| 0 <= j < i ==> trim(#[trigger] addons.key_seq()[j]).len() > 0,
            forall|j: int| 0 <= j < i ==> out@.contains_key(trim(#[trigger] addons.key_seq()[j])),
            forall|k: Seq<char>|
                #[trigger] out@.contains_key(k) ==> exists|j: int|
                    0 <= j < i && trim(#[trigger] addons.key_seq()[j]) == k && addons@[addons.key_seq()[j]]
                        == out@[k],
        decreases n - i,
    {
        let key = addons.key_at(i);
        let value = *addons.value_at(i);
        let t = trim_string(key);
        if t.as_str().is_empty() {
            proof {
                assert(addons@.contains_key(addons.key_seq()[i as int]));
            }
            return Err(SpaceError::EmptyAddonId);
        }
        let ghost tv = t@;
        let ghost before = out@;
        out.insert(t, value);
        proof {
            assert forall|k: Seq<char>| #[trigger] out@.contains_key(k) implies exists|j: int|
                0 <= j < i + 1 && trim(#[trigger] addons.key_seq()[j]) == k && addons@[addons.key_seq()[j]]
                    == out@[k] by {
                if k == tv {
                    assert(trim(addons.key_seq()[i as int]) == k);
                } else {
                    assert(before.contains_key(k));
                    let j = choose|j: int|
                        0 <= j < i && trim(#[trigger] addons.key_seq()[j]) == k && addons@[addons.key_seq()[j]]
                            == before[k];
                    assert(trim(addons.key_seq()[j]) == k);
                }
            }
        }
        i = i + 1;
    }
    proof {
        assert forall|k: Seq<char>| #[trigger] addons@.contains_key(k) implies out@.contains_key(trim(k)) by {
            assert(addons.key_seq().to_set().contains(k));
            let j = choose|j: int| 0 <= j < addons.key_seq().len() && addons.key_seq()[j] == k;
            assert(out@.contains_key(trim(addons.key_seq()[j])));
        }
        assert forall|k: Seq<char>| #[trigger] out@.contains_key(k) implies exists|j: Seq<char>|
            #[trigger] addons@.contains_key(j) && trim(j) == k && addons@[j] == out@[k] by {
            let j = choose|j: int|
                0 <= j < i && trim(#[trigger] addons.key_seq()[j]) == k && addons@[addons.key_seq()[j]]
                    == out@[k];
            assert(addons.key_seq().to_set().contains(addons.key_seq()[j]));
            assert(addons@.contains_key(addons.key_seq()[j]));
        }
        assert(!has_blank_key(addons@)) by {
            if has_blank_key(addons@) {
                let k = choose|k: Seq<char>| #[trigger] addons@.contains_key(k) && trim(k).len() == 0;
                assert(addons.key_seq().to_set().contains(k));
                let j = choose|j: int| 0 <= j < addons.key_seq().len() && addons.key_seq()[j] == k;
                assert(trim(addons.key_seq()[j]).len() > 0);
            }
        }
    }
    Ok(out)
}

/// Repairs one space given the ids of the spaces before it; returns the
/// space as repair left it and the first rule it broke.
fn repair_record(r: SpaceRecord, seen: &StrSet) -> (res: (SpaceRecord, Option<SpaceError>))
    ensures
        repair_state(r@, seen@, res.0@),
        match repair_fault(r@, seen@) {
            None => res.1 is None,
            Some(f) => res.1 matches Some(e) && reports_fault(e, f, r@),
        },
{
    let ghost old = r@;
    let mut r = r;
    r.space_id = trim_string(&r.space_id);
    r.name = trim_string(&r.name);
    if r.space_id.as_str().is_empty() {
        return (r, Some(SpaceError::EmptySpaceId));
    }
    if seen.contains(r.space_id.as_str()) {
        let id = r.space_id.clone();
        return (r, Some(SpaceError::DuplicateSpaceId { space_id: id }));
    }
    if r.name.as_str().is_empty() {
        r.name = r.space_id.clone();
    }
    r.members = normalize_members(&r.members);
    match normalize_addons(&r.addons) {
        Ok(m) => {
            r.addons = m;
        },
        Err(e) => {
            r.addons = StrMap::new();
            return (r, Some(e));
        },
    }
    if r.kind == SpaceKind::Direct && r.members.len() > 1 {
        let id = r.space_id.clone();
        return (r, Some(SpaceError::DirectSpaceHasManyMembers { space_id: id }));
    }
    (r, None)
}

impl SpaceStore {
    pub fn new() -> (s: SpaceStore)
        ensures
            s@.len() == 0,
    {
        SpaceStore { spaces: Vec::new() }
    }

    /// Trims ids, names, members and add-on ids, fills blank names with the
    /// id, sorts and dedups members, and checks the store's rules: ids are
    /// non-empty and distinct, add-on ids non-empty, and a direct space has at
    /// most one member. Stops at the first space that breaks a rule. It
    /// succeeds exactly on a valid store, and then leaves every space in
    /// normal form (see `lemma_repair_outcome`).
    pub fn validate_and_repair(&mut self) -> (res: Result<(), SpaceError>)
        ensures
            store_repair(old(self)@, final(self)@, res),
            res is Ok <==> store_valid(old(self)@),
            res is Ok ==> forall|i: int| 0 <= i < old(self)@.len() ==> space_normal(old(self)@[i], #[trigger] final(self)@[i]),
    {
        let mut spaces: Vec<SpaceRecord> = Vec::new();
        std::mem::swap(&mut spaces, &mut self.spaces);
        let (repaired, res) = repair_all(spaces);
        self.spaces = repaired;
        proof {
            lemma_repair_outcome(old(self)@, self@, res);
        }
        res
    }
}

fn repair_all(spaces: Vec<SpaceRecord>) -> (res: (Vec<SpaceRecord>, Result<(), SpaceError>))
    ensures
        store_repair(records_view(spaces@), records_view(res.0@), res.1),
{
        let ghost old_view = records_view(spaces@);
        let mut rest = spaces;
        let mut done: Vec<SpaceRecord> = Vec::new();
        let mut seen = StrSet::new();
        let n = rest.len();
        let mut i: usize = 0;
        proof {
            assert(records_view(rest@) == old_view);
            assert(seen@ =~= ids_before(old_view, 0));
        }
        while i < n
            invariant
                old_view == records_view(spaces@),
                n == old_view.len(),
                i <= n,
                done@.len() == i,
                rest@.len() == n - i,
                forall|j: int| 0 <= j < n - i ==> #[trigger] rest@[j]@ == old_view[j + i],
                seen@ == ids_before(old_view, i as int),
                repaired_prefix(old_view, records_view(done@), i as int),
            decreases n - i,
        {
            let r = rest.remove(0);
            proof {
                assert(r@ == old_view[i as int]);
                assert forall|j: int| 0 <= j < n - i - 1 implies #[trigger] rest@[j]@ == old_view[j + i + 1] by {
                }
            }
            let (repaired, fault) = repair_record(r, &seen);
            let ghost rv = repaired@;
            match fault {
                Some(e) => {
                    let ghost dv = records_view(done@);
                    let ghost rest_v = rest@;
                    let ghost done_v = done@;
                    done.push(repaired);
                    done.append(&mut rest);
                    proof {
                        assert(done@ == done_v.push(repaired) + rest_v);
                    }
                    proof {
                        let nv = records_view(done@);
                        assert(nv.len() == n);
                        assert forall|j: int| 0 <= j < i implies nv[j] == dv[j] by {
                            assert(done@[j] == done_v[j]);
                        }
                        assert(nv[i as int] == rv);
                        assert forall|j: int| i < j < n implies nv[j] == old_view[j] by {
                            assert(done@[j] == rest_v[j - i - 1]);
                            assert(rest_v[j - i - 1]@ == old_view[j]);
                        }
                        assert forall|j: int| 0 <= j < i implies #[trigger] repair_state(old_view[j], ids_before(old_view, j), nv[j]) by {
                            assert(repair_state(old_view[j], ids_before(old_view, j), dv[j]));
                        }
                        assert(repaired_prefix(old_view, nv, i as int));
                        assert(repair_fault(old_view[i as int], ids_before(old_view, i as int)) is Some);
                        assert(repair_state(old_view[i as int], ids_before(old_view, i as int), nv[i as int]));
                        assert(reports_fault(e, repair_fault(old_view[i as int], ids_before(old_view, i as int))->Some_0, old_view[i as int]));
                        let k = i as int;
                        assert({
                            &&& 0 <= k < old_view.len()
                            &&& repaired_prefix(old_view, nv, k)
                            &&& repair_fault(old_view[k], ids_before(old_view, k)) is Some
                            &&& reports_fault(e, repair_fault(old_view[k], ids_before(old_view, k))->Some_0, old_view[k])
                            &&& repair_state(old_view[k], ids_before(old_view, k), nv[k])
                            &&& forall|j: int| k < j < old_view.len() ==> nv[j] == old_view[j]
                        });
                        assert(store_repair(old_view, nv, Err(e)));
                    }
                    return (done, Err(e));
                },
                None => {
                    let ghost dv = records_view(done@);
                    let id = repaired.space_id.clone();
                    done.push(repaired);
                    seen.insert(id);
                    proof {
                        let nd = records_view(done@);
                        assert(nd =~= dv.push(rv));
                        assert(seen@ =~= ids_before(old_view, i + 1)) by {
                            assert forall|x: Seq<char>| seen@.contains(x) <==> ids_before(old_view, i + 1).contains(x) by {
                                if x == trim(old_view[i as int].space_id) {
                                    assert(trim(old_view[i as int].space_id) == x);
                                }
                                if ids_before(old_view, i + 1).contains(x) {
                                    let j = choose|j: int| 0 <= j < i + 1 && trim(#[trigger] old_view[j].space_id) == x;
                                    if j < i {
                                        assert(ids_before(old_view, i as int).contains(x));
                                    }
                                }
                                if ids_before(old_view, i as int).contains(x) {
                                    let j = choose|j: int| 0 <= j < i && trim(#[trigger] old_view[j].space_id) == x;
                                    assert(ids_before(old_view, i + 1).contains(x));
                                }
                            }
                        }
                        assert(repaired_prefix(old_view, nd, i + 1)) by {
                            assert forall|j: int| 0 <= j < i + 1 implies (#[trigger] repair_fault(
                                old_view[j],
                                ids_before(old_view, j),
                            )) is None by {
                            }
                            assert forall|j: int| 0 <= j < i + 1 implies #[trigger] repair_state(old_view[j], ids_before(old_view, j), nd[j]) by {
                                if j < i {
                                    assert(nd[j] == dv[j]);
                                    assert(repair_state(old_view[j], ids_before(old_view, j), dv[j]));
                                }
                            }
                        }
                    }
                },
            }
            i = i + 1;
        }
        (done, Ok(()))
}


/// The index of the first space with the given id.
#[verifier::opaque]
pub open spec fn first_space_index(s: Seq<SpaceRecordView>, id: Seq<char>) -> Option<int> {
    if exists|i: int| 0 <= i < s.len() && #[trigger] s[i].space_id == id {
        Some(
            choose|i: int|
                0 <= i < s.len() && #[trigger] s[i].space_id == id && forall|j: int|
                    0 <= j < i ==> s[j].space_id != id,
        )
    } else {
        None
    }
}

proof fn lemma_first_space_index(s: Seq<SpaceRecordView>, id: Seq<char>, i: int)
    requires
        0 <= i < s.len(),
        s[i].space_id == id,
        forall|j: int| 0 <= j < i ==> s[j].space_id != id,
    ensures
        first_space_index(s, id) == Some(i),
{
    reveal(first_space_index);
    let k = choose|k: int|
        0 <= k < s.len() && #[trigger] s[k].space_id == id && forall|j: int|
            0 <= j < k ==> s[j].space_id != id;
    assert(0 <= k < s.len() && s[k].space_id == id && forall|j: int| 0 <= j < k ==> s[j].space_id != id);
    if k < i {
        assert(s[k].space_id != id);
    }
    if i < k {
        assert(s[i].space_id != id);
    }
}

/// A space with the given id implies a first one.
proof fn lemma_min_space_index_exists(s: Seq<SpaceRecordView>, id: Seq<char>, k: int)
    requires
        0 <= k < s.len(),
        s[k].space_id == id,
    ensures
        exists|i: int|
            0 <= i < s.len() && #[trigger] s[i].space_id == id && forall|j: int|
                0 <= j < i ==> s[j].space_id != id,
    decreases k,
{
    if exists|j: int| 0 <= j < k && #[trigger] s[j].space_id == id {
        let j = choose|j: int| 0 <= j < k && #[trigger] s[j].space_id == id;
        lemma_min_space_index_exists(s, id, j);
    } else {
        assert(forall|j: int| 0 <= j < k ==> s[j].space_id != id);
    }
}

/// What the first index of an id says of the spaces.
pub proof fn lemma_first_space_index_facts(s: Seq<SpaceRecordView>, id: Seq<char>)
    ensures
        first_space_index(s, id) matches Some(i) ==> (0 <= i < s.len() && s[i].space_id == id && forall|j: int|
            0 <= j < i ==> s[j].space_id != id),
        first_space_index(s, id) is None ==> forall|j: int| 0 <= j < s.len() ==> s[j].space_id != id,
{
    reveal(first_space_index);
    if exists|k: int| 0 <= k < s.len() && #[trigger] s[k].space_id == id {
        let k = choose|k: int| 0 <= k < s.len() && #[trigger] s[k].space_id == id;
        lemma_min_space_index_exists(s, id, k);
    } else {
        assert forall|j: int| 0 <= j < s.len() implies s[j].space_id != id by {
            if s[j].space_id == id {
                assert(exists|k: int| 0 <= k < s.len() && #[trigger] s[k].space_id == id);
            }
        }
    }
}

/// Two lists of spaces with the same ids, place by place, have the same
/// first index for every id.
pub proof fn lemma_first_space_index_same_ids(s1: Seq<SpaceRecordView>, s2: Seq<SpaceRecordView>, id: Seq<char>)
    requires
        s1.len() == s2.len(),
        forall|i: int| 0 <= i < s1.len() ==> #[trigger] s1[i].space_id == s2[i].space_id,
    ensures
        first_space_index(s1, id) == first_space_index(s2, id),
{
    lemma_first_space_index_facts(s1, id);
    lemma_first_space_index_facts(s2, id);
    match first_space_index(s1, id) {
        Some(i) => {
            assert forall|j: int| 0 <= j < i implies s2[j].space_id != id by {
                assert(s1[j].space_id == s2[j].space_id);
            }
            assert(s1[i].space_id == s2[i].space_id);
            lemma_first_space_index(s2, id, i);
        },
        None => {
            match first_space_index(s2, id) {
                Some(i) => {
                    assert(s1[i].space_id == s2[i].space_id);
                },
                None => {},
            }
        },
    }
}

/// Replacing a space by one with the same id keeps that id's index.
pub proof fn lemma_first_space_index_update(s: Seq<SpaceRecordView>, id: Seq<char>, i: int, r: SpaceRecordView)
    requires
        first_space_index(s, id) == Some(i),
        r.space_id == id,
    ensures
        first_space_index(s.update(i, r), id) == Some(i),
        s.update(i, r)[i] == r,
{
    lemma_first_space_index_facts(s, id);
    let t = s.update(i, r);
    assert forall|j: int| 0 <= j < i implies t[j].space_id != id by {
        assert(t[j] == s[j]);
    }
    lemma_first_space_index(t, id, i);
}

/// The `Ok`/`Err` shape of a result, without its value.
pub open spec fn unit_result<T>(r: Result<T, SpaceError>) -> Result<(), SpaceError> {
    match r {
        Ok(_) => Ok(()),
        Err(e) => Err(e),
    }
}

/// `space` with its `active` flag set.
pub open spec fn with_active(space: SpaceRecordView, active: bool) -> SpaceRecordView {
    SpaceRecordView { active, ..space }
}

/// `space` with one add-on's state set.
pub open spec fn with_addon(space: SpaceRecordView, addon_id: Seq<char>, enabled: bool) -> SpaceRecordView {
    SpaceRecordView { addons: space.addons.insert(addon_id, enabled), ..space }
}

/// The members of `r` that are connected, in order.
pub open spec fn connected_members_of(members: Seq<Seq<char>>, connected: Set<Seq<char>>) -> Seq<Seq<char>> {
    members.filter(|m: Seq<char>| connected.contains(m))
}

/// The members of `r` that are not connected, in order.
pub open spec fn missing_members_of(members: Seq<Seq<char>>, connected: Set<Seq<char>>) -> Seq<Seq<char>> {
    members.filter(|m: Seq<char>| !connected.contains(m))
}

/// A space's activation given the connected peers.
pub open spec fn activation_of(r: SpaceRecordView, connected: Set<Seq<char>>) -> SpaceActivationView {
    SpaceActivationView {
        space_id: r.space_id,
        name: r.name,
        kind: r.kind,
        active: r.active,
        connected_members: connected_members_of(r.members, connected),
        missing_members: missing_members_of(r.members, connected),
    }
}

/// Splits a space's members into those connected and those missing.
fn space_activation_state(space: &SpaceRecord, connected_peer_ids: &StrSet) -> (r: SpaceActivationState)
    ensures
        r@ == activation_of(space@, connected_peer_ids@),
{
    let mut connected_members: Vec<String> = Vec::new();
    let mut missing_members: Vec<String> = Vec::new();
    let ghost ms = space.members.deep_view();
    let mut i: usize = 0;
    while i < space.members.len()
        invariant
            ms == space.members.deep_view(),
            i <= ms.len(),
            connected_members.deep_view() == connected_members_of(ms.take(i as int), connected_peer_ids@),
            missing_members.deep_view() == missing_members_of(ms.take(i as int), connected_peer_ids@),
        decreases ms.len() - i,
    {
        let m = space.members[i].clone();
        let ghost mv = m@;
        proof {
            assert(ms.take(i + 1) == ms.take(i as int).push(mv));
            lemma_filter_push(ms.take(i as int), |x: Seq<char>| connected_peer_ids@.contains(x), mv);
            lemma_filter_push(ms.take(i as int), |x: Seq<char>| !connected_peer_ids@.contains(x), mv);
        }
        if connected_peer_ids.contains(m.as_str()) {
            let ghost before = connected_members.deep_view();
            connected_members.push(m);
            proof {
                assert(connected_members.deep_view() =~= before.push(mv));
            }
        } else {
            let ghost before = missing_members.deep_view();
            missing_members.push(m);
            proof {
                assert(missing_members.deep_view() =~= before.push(mv));
            }
        }
        i = i + 1;
    }
    proof {
        assert(ms.take(ms.len() as int) == ms);
    }
    SpaceActivationState {
        space_id: space.space_id.clone(),
        name: space.name.clone(),
        kind: space.kind,
        active: space.active,
        connected_members,
        missing_members,
    }
}

/// The add-on ids of a list of desired states.
pub open spec fn desired_ids(v: Seq<SpaceAddonDesiredState>) -> Seq<Seq<char>> {
    v.map_values(|d: SpaceAddonDesiredState| d.addon_id@)
}

impl SpaceStore {
    /// The index of the first space whose id is exactly `space_id`.
    pub fn find_space(&self, space_id: &str) -> (r: Option<usize>)
        ensures
            r matches Some(i) ==> i < self@.len() && first_space_index(self@, space_id@) == Some(i as int)
                && self@[i as int].space_id == space_id@,
            r is None ==> first_space_index(self@, space_id@) is None,
    {
        let mut i: usize = 0;
        while i < self.spaces.len()
            invariant
                i <= self@.len(),
                self@.len() == self.spaces@.len(),
                forall|j: int| 0 <= j < i ==> self@[j].space_id != space_id@,
            decreases self.spaces@.len() - i,
        {
            if str_eq(self.spaces[i].space_id.as_str(), space_id) {
                proof {
                    lemma_first_space_index(self@, space_id@, i as int);
                }
                return Some(i);
            }
            i = i + 1;
        }
        proof {
            reveal(first_space_index);
            if exists|k: int| 0 <= k < self@.len() && #[trigger] self@[k].space_id == space_id@ {
                let k = choose|k: int| 0 <= k < self@.len() && #[trigger] self@[k].space_id == space_id@;
                assert(self@[k].space_id != space_id@);
            }
        }
        None
    }

    /// Sets a space's `active` flag, then validates and repairs the store.
    /// Returns the space as it was right after the flag was set.
    pub fn set_space_active(&mut self, space_id: &str, active: bool) -> (r: Result<SpaceRecord, SpaceError>)
        ensures
            ({
                let t = trim(space_id@);
                &&& t.len() == 0 ==> (r matches Err(SpaceError::EmptySpaceId) && final(self)@ == old(self)@)
                &&& t.len() > 0 && first_space_index(old(self)@, t) is None ==> (r matches Err(
                    SpaceError::UnknownSpace { space_id },
                ) && space_id@ == t && final(self)@ == old(self)@)
                &&& first_space_index(old(self)@, t) matches Some(i) ==> (t.len() > 0 ==> {
                    let mid = old(self)@.update(i, with_active(old(self)@[i], active));
                    &&& store_repair(mid, final(self)@, unit_result(r))
                    &&& r matches Ok(rec) ==> rec@ == mid[i]
                })
            }),
    {
        let id = trim_str(space_id);
        if id.as_str().is_empty() {
            return Err(SpaceError::EmptySpaceId);
        }
        let i = match self.find_space(id.as_str()) {
            Some(i) => i,
            None => {
                return Err(SpaceError::UnknownSpace { space_id: id });
            },
        };
        let ghost old_view = self@;
        let mut rec = self.spaces.remove(i);
        rec.active = active;
        let response = rec.clone();
        self.spaces.insert(i, rec);
        proof {
            assert(self@ =~= old_view.update(i as int, with_active(old_view[i as int], active)));
        }
        match self.validate_and_repair() {
            Ok(()) => Ok(response),
            Err(e) => Err(e),
        }
    }

    /// Sets whether an add-on should run in a space, then validates and
    /// repairs the store.
    pub fn set_addon_enabled(&mut self, space_id: &str, addon_id: &str, enabled: bool) -> (r: Result<SpaceAddonState, SpaceError>)
        ensures
            ({
                let t = trim(space_id@);
                let a = trim(addon_id@);
                &&& t.len() == 0 ==> (r matches Err(SpaceError::EmptySpaceId) && final(self)@ == old(self)@)
                &&& t.len() > 0 && a.len() == 0 ==> (r matches Err(SpaceError::EmptyAddonId) && final(self)@ == old(self)@)
                &&& t.len() > 0 && a.len() > 0 && first_space_index(old(self)@, t) is None ==> (r matches Err(
                    SpaceError::UnknownSpace { space_id },
                ) && space_id@ == t && final(self)@ == old(self)@)
                &&& first_space_index(old(self)@, t) matches Some(i) ==> (t.len() > 0 && a.len() > 0 ==> {
                    let mid = old(self)@.update(i, with_addon(old(self)@[i], a, enabled));
                    &&& store_repair(mid, final(self)@, unit_result(r))
                    &&& r matches Ok(state) ==> state.enabled == enabled
                    &&& (r is Ok && other_ids_agree(old(self)@[i].addons, a, enabled)) ==> {
                        &&& first_space_index(final(self)@, t) == Some(i)
                        &&& final(self)@[i].addons.contains_key(a)
                        &&& final(self)@[i].addons[a] == enabled
                    }
                })
            }),
    {
        let id = trim_str(space_id);
        let addon = trim_str(addon_id);
        if id.as_str().is_empty() {
            return Err(SpaceError::EmptySpaceId);
        }
        if addon.as_str().is_empty() {
            return Err(SpaceError::EmptyAddonId);
        }
        let i = match self.find_space(id.as_str()) {
            Some(i) => i,
            None => {
                return Err(SpaceError::UnknownSpace { space_id: id });
            },
        };
        let ghost old_view = self@;
        let ghost av = addon@;
        let mut rec = self.spaces.remove(i);
        let state = SpaceAddonState { enabled };
        rec.addons.insert(addon, state);
        self.spaces.insert(i, rec);
        proof {
            assert(self@ =~= old_view.update(i as int, with_addon(old_view[i as int], av, enabled)));
        }
        match self.validate_and_repair() {
            Ok(()) => {
                proof {
                    if other_ids_agree(old_view[i as int].addons, av, enabled) {
                        lemma_addon_state_after_set(old_view, self@, space_id@, addon_id@, enabled);
                    }
                }
                Ok(state)
            },
            Err(e) => Err(e),
        }
    }

    /// One add-on's desired state in a space, if the space has one for it.
    /// After `set_addon_enabled` succeeded, it reads back the state set
    /// (see `lemma_addon_state_after_set`).
    pub fn addon_state(&self, space_id: &str, addon_id: &str) -> (r: Result<Option<SpaceAddonState>, SpaceError>)
        ensures
            ({
                let t = trim(space_id@);
                let a = trim(addon_id@);
                &&& t.len() == 0 ==> (r matches Err(SpaceError::EmptySpaceId))
                &&& t.len() > 0 && a.len() == 0 ==> (r matches Err(SpaceError::EmptyAddonId))
                &&& t.len() > 0 && a.len() > 0 && first_space_index(self@, t) is None ==> (r matches Err(
                    SpaceError::UnknownSpace { space_id },
                ) && space_id@ == t)
                &&& first_space_index(self@, t) matches Some(i) ==> (t.len() > 0 && a.len() > 0 ==> (r matches Ok(o) && (
                o is Some == self@[i].addons.contains_key(a)) && (o matches Some(st) ==> st.enabled
                    == self@[i].addons[a])))
            }),
    {
        let id = trim_str(space_id);
        let addon = trim_str(addon_id);
        if id.as_str().is_empty() {
            return Err(SpaceError::EmptySpaceId);
        }
        if addon.as_str().is_empty() {
            return Err(SpaceError::EmptyAddonId);
        }
        let i = match self.find_space(id.as_str()) {
            Some(i) => i,
            None => {
                return Err(SpaceError::UnknownSpace { space_id: id });
            },
        };
        match self.spaces[i].addons.get(addon.as_str()) {
            Some(st) => Ok(Some(*st)),
            None => Ok(None),
        }
    }

    /// A space's add-on states, sorted by add-on id.
    pub fn space_addons(&self, space_id: &str) -> (r: Result<Vec<SpaceAddonDesiredState>, SpaceError>)
        ensures
            ({
                let t = trim(space_id@);
                &&& t.len() == 0 ==> (r matches Err(SpaceError::EmptySpaceId))
                &&& t.len() > 0 && first_space_index(self@, t) is None ==> (r matches Err(
                    SpaceError::UnknownSpace { space_id },
                ) && space_id@ == t)
                &&& first_space_index(self@, t) matches Some(i) ==> (t.len() > 0 ==> (r matches Ok(v) && strictly_sorted(
                    desired_ids(v@),
                ) && desired_ids(v@).to_set() == self@[i].addons.dom() && forall|j: int|
                    0 <= j < v@.len() ==> (#[trigger] v@[j]).enabled == self@[i].addons[v@[j].addon_id@]))
            }),
    {
        let id = trim_str(space_id);
        if id.as_str().is_empty() {
            return Err(SpaceError::EmptySpaceId);
        }
        let i = match self.find_space(id.as_str()) {
            Some(i) => i,
            None => {
                return Err(SpaceError::UnknownSpace { space_id: id });
            },
        };
        let addons = &self.spaces[i].addons;
        let keys = addons.sorted_keys();
        let mut out: Vec<SpaceAddonDesiredState> = Vec::new();
        let mut j: usize = 0;
        while j < keys.len()
            invariant
                j <= keys@.len(),
                out@.len() == j,
                keys.deep_view().to_set() == addons@.dom(),
                forall|k: int| 0 <= k < j ==> (#[trigger] out@[k]).addon_id@ == keys.deep_view()[k],
                forall|k: int| 0 <= k < j ==> (#[trigger] out@[k]).enabled == addons@[keys.deep_view()[k]],
            decreases keys@.len() - j,
        {
            let k = keys[j].clone();
            proof {
                assert(keys.deep_view()[j as int] == k@);
                assert(addons@.dom().contains(k@));
            }
            let enabled = match addons.get(k.as_str()) {
                Some(st) => st.enabled,
                None => false,
            };
            out.push(SpaceAddonDesiredState { addon_id: k, enabled });
            j = j + 1;
        }
        proof {
            assert(desired_ids(out@) =~= keys.deep_view());
        }
        Ok(out)
    }

    /// One space's activation given the connected peers.
    pub fn activation_state(&self, space_id: &str, connected_peer_ids: &StrSet) -> (r: Result<SpaceActivationState, SpaceError>)
        ensures
            ({
                let t = trim(space_id@);
                &&& t.len() == 0 ==> (r matches Err(SpaceError::EmptySpaceId))
                &&& t.len() > 0 && first_space_index(self@, t) is None ==> (r matches Err(
                    SpaceError::UnknownSpace { space_id },
                ) && space_id@ == t)
                &&& first_space_index(self@, t) matches Some(i) ==> (t.len() > 0 ==> (r matches Ok(a) && a@
                    == activation_of(self@[i], connected_peer_ids@)))
            }),
    {
        let id = trim_str(space_id);
        if id.as_str().is_empty() {
            return Err(SpaceError::EmptySpaceId);
        }
        match self.find_space(id.as_str()) {
            Some(i) => Ok(space_activation_state(&self.spaces[i], connected_peer_ids)),
            None => Err(SpaceError::UnknownSpace { space_id: id }),
        }
    }

    /// Every space's activation given the connected peers, in store order.
    pub fn activation_states(&self, connected_peer_ids: &StrSet) -> (r: Vec<SpaceActivationState>)
        ensures
            r@.len() == self@.len(),
            forall|i: int| 0 <= i < self@.len() ==> (#[trigger] r@[i])@ == activation_of(self@[i], connected_peer_ids@),
    {
        let mut out: Vec<SpaceActivationState> = Vec::new();
        let mut i: usize = 0;
        while i < self.spaces.len()
            invariant
                i <= self@.len(),
                self@.len() == self.spaces@.len(),
                out@.len() == i,
                forall|k: int| 0 <= k < i ==> (#[trigger] out@[k])@ == activation_of(self@[k], connected_peer_ids@),
            decreases self.spaces@.len() - i,
        {
            out.push(space_activation_state(&self.spaces[i], connected_peer_ids));
            i = i + 1;
        }
        out
    }
}

/// Normalized members are already normal: normalizing them again changes
/// nothing.
pub proof fn lemma_normalized_members_idempotent(m: Seq<Seq<char>>)
    ensures
        strictly_sorted(normalized_members(m)),
        normalized_members(m).to_set() == trimmed_nonempty_set(m),
        normalized_members(normalized_members(m)) == normalized_members(m),
{
    crate::text::lemma_trimmed_nonempty_finite(m);
    crate::text::lemma_sorted_enumeration_exists(trimmed_nonempty_set(m));
    let n = normalized_members(m);
    assert forall|x: Seq<char>| trimmed_nonempty_set(n).contains(x) <==> n.to_set().contains(x) by {
        if trimmed_nonempty_set(n).contains(x) {
            let i = choose|i: int| 0 <= i < n.len() && trim(#[trigger] n[i]) == x;
            assert(n.to_set().contains(n[i]));
            let j = choose|j: int| 0 <= j < m.len() && trim(#[trigger] m[j]) == n[i];
            crate::text::lemma_trim_idempotent(m[j]);
        }
        if n.to_set().contains(x) {
            let i = choose|i: int| 0 <= i < n.len() && n[i] == x;
            let j = choose|j: int| 0 <= j < m.len() && trim(#[trigger] m[j]) == x;
            crate::text::lemma_trim_idempotent(m[j]);
            assert(trim(n[i]) == x);
        }
    }
    assert(trimmed_nonempty_set(n) =~= n.to_set());
    lemma_strictly_sorted_unique(normalized_members(n), n);
}

/// The facts about one space of a store that was repaired without error:
/// it breaks no rule, and it is its own only repair.
proof fn lemma_repaired_record(o: SpaceRecordView, seen: Set<Seq<char>>, n: SpaceRecordView, n2: SpaceRecordView)
    requires
        repair_fault(o, seen) is None,
        repair_state(o, seen, n),
    ensures
        repair_fault(n, seen) is None,
        repair_state(n, seen, n),
        repair_state(n, seen, n2) ==> n2 == n,
{
    crate::text::lemma_trim_idempotent(o.space_id);
    crate::text::lemma_trim_idempotent(o.name);
    lemma_normalized_members_idempotent(o.members);
    assert(!has_blank_key(n.addons)) by {
        if has_blank_key(n.addons) {
            let k = choose|k: Seq<char>| #[trigger] n.addons.contains_key(k) && trim(k).len() == 0;
            let j = choose|j: Seq<char>| #[trigger] o.addons.contains_key(j) && trim(j) == k && o.addons[j] == n.addons[k];
            crate::text::lemma_trim_idempotent(j);
            assert(has_blank_key(o.addons));
        }
    }
    assert forall|k: Seq<char>| #[trigger] n.addons.contains_key(k) implies trim(k) == k by {
        let j = choose|j: Seq<char>| #[trigger] o.addons.contains_key(j) && trim(j) == k && o.addons[j] == n.addons[k];
        crate::text::lemma_trim_idempotent(j);
    }
    assert(repaired_name(n) == n.name);
    assert(addons_trimmed(n.addons, n.addons)) by {
        assert forall|k: Seq<char>| #[trigger] n.addons.contains_key(k) implies exists|j: Seq<char>|
            #[trigger] n.addons.contains_key(j) && trim(j) == k && n.addons[j] == n.addons[k] by {
            assert(n.addons.contains_key(k) && trim(k) == k);
        }
    }
    if repair_state(n, seen, n2) {
        assert(n2.addons =~= n.addons) by {
            assert forall|k: Seq<char>| n2.addons.contains_key(k) <==> n.addons.contains_key(k) by {
                if n.addons.contains_key(k) {
                    assert(n2.addons.contains_key(trim(k)));
                }
                if n2.addons.contains_key(k) {
                    let j = choose|j: Seq<char>| #[trigger] n.addons.contains_key(j) && trim(j) == k && n.addons[j] == n2.addons[k];
                }
            }
            assert forall|k: Seq<char>| n2.addons.contains_key(k) implies n2.addons[k] == n.addons[k] by {
                let j = choose|j: Seq<char>| #[trigger] n.addons.contains_key(j) && trim(j) == k && n.addons[j] == n2.addons[k];
            }
        }
    }
}

/// A store that was repaired without error stays repaired when spaces are
/// switched on or off: repairing it succeeds and leaves it as it is.
pub proof fn lemma_repaired_store_stable(
    old: Seq<SpaceRecordView>,
    new: Seq<SpaceRecordView>,
    switched: Seq<SpaceRecordView>,
    again: Seq<SpaceRecordView>,
    res: Result<(), SpaceError>,
)
    requires
        store_repair(old, new, Ok(())),
        switched.len() == new.len(),
        forall|i: int| 0 <= i < new.len() ==> #[trigger] switched[i] == with_active(new[i], switched[i].active),
        store_repair(switched, again, res),
    ensures
        res is Ok,
        again == switched,
{
    assert forall|k: int| 0 <= k < new.len() implies #[trigger] ids_before(switched, k) == ids_before(old, k) by {
        assert forall|x: Seq<char>| ids_before(switched, k).contains(x) <==> ids_before(old, k).contains(x) by {
            if ids_before(switched, k).contains(x) {
                let i = choose|i: int| 0 <= i < k && trim(#[trigger] switched[i].space_id) == x;
                assert(switched[i] == with_active(new[i], switched[i].active));
                crate::text::lemma_trim_idempotent(old[i].space_id);
                assert(repair_state(old[i], ids_before(old, i), new[i]));
                assert(trim(old[i].space_id) == x);
            }
            if ids_before(old, k).contains(x) {
                let i = choose|i: int| 0 <= i < k && trim(#[trigger] old[i].space_id) == x;
                assert(switched[i] == with_active(new[i], switched[i].active));
                crate::text::lemma_trim_idempotent(old[i].space_id);
                assert(repair_state(old[i], ids_before(old, i), new[i]));
                assert(trim(switched[i].space_id) == x);
            }
        }
        assert(ids_before(switched, k) =~= ids_before(old, k));
    }
    assert forall|k: int| 0 <= k < new.len() implies (#[trigger] repair_fault(switched[k], ids_before(switched, k))) is None by {
        assert(repair_state(old[k], ids_before(old, k), new[k]));
        assert(switched[k] == with_active(new[k], switched[k].active));
        lemma_repaired_record(old[k], ids_before(old, k), new[k], new[k]);
    }
    match res {
        Ok(_) => {
            assert forall|k: int| 0 <= k < new.len() implies again[k] == switched[k] by {
                let seen = ids_before(old, k);
                assert(repair_state(old[k], seen, new[k]));
                assert(switched[k] == with_active(new[k], switched[k].active));
                assert(repair_state(switched[k], ids_before(switched, k), again[k]));
                let back = with_active(again[k], new[k].active);
                lemma_repaired_record(old[k], seen, new[k], back);
                assert(repair_state(new[k], seen, back));
            }
            assert(again =~= switched);
        },
        Err(_) => {
            let k = choose|k: int|
                {
                    &&& 0 <= k < switched.len()
                    &&& repaired_prefix(switched, again, k)
                    &&& #[trigger] repair_fault(switched[k], ids_before(switched, k)) is Some
                    &&& reports_fault(res->Err_0, repair_fault(switched[k], ids_before(switched, k))->Some_0, switched[k])
                    &&& repair_state(switched[k], ids_before(switched, k), again[k])
                    &&& forall|i: int| k < i < switched.len() ==> again[i] == switched[i]
                };
            assert(false);
        },
    }
}

/// Repair is idempotent: a store that was repaired without error breaks no
/// rule, so repairing it again succeeds and leaves it exactly as it is.
pub proof fn lemma_repair_idempotent(
    old: Seq<SpaceRecordView>,
    new: Seq<SpaceRecordView>,
    again: Seq<SpaceRecordView>,
    res: Result<(), SpaceError>,
)
    requires
        store_repair(old, new, Ok(())),
        store_repair(new, again, res),
    ensures
        res is Ok,
        again == new,
{
    assert forall|i: int| 0 <= i < new.len() implies #[trigger] new[i] == with_active(new[i], new[i].active) by {}
    lemma_repaired_store_stable(old, new, new, again, res);
}

/// Every other add-on id that trims to `a` has the state `enabled`.
pub open spec fn other_ids_agree(addons: Map<Seq<char>, bool>, a: Seq<char>, enabled: bool) -> bool {
    forall|k: Seq<char>| #[trigger] addons.contains_key(k) && k != a && trim(k) == a ==> addons[k] == enabled
}

/// Reading back an add-on's state: after `set_addon_enabled(space_id,
/// addon_id, enabled)` repaired the store without error, `addon_state` of
/// the same ids finds the space at the same place with the add-on set to
/// `enabled`. Left out are spaces holding another add-on id that trims to
/// the same id with a different state: repair keeps one of the two.
pub proof fn lemma_addon_state_after_set(
    old: Seq<SpaceRecordView>,
    new: Seq<SpaceRecordView>,
    space_id: Seq<char>,
    addon_id: Seq<char>,
    enabled: bool,
)
    requires
        trim(space_id).len() > 0,
        trim(addon_id).len() > 0,
        first_space_index(old, trim(space_id)) is Some,
        other_ids_agree(old[first_space_index(old, trim(space_id))->Some_0].addons, trim(addon_id), enabled),
        store_repair(
            old.update(
                first_space_index(old, trim(space_id))->Some_0,
                with_addon(old[first_space_index(old, trim(space_id))->Some_0], trim(addon_id), enabled),
            ),
            new,
            Ok(()),
        ),
    ensures
        first_space_index(new, trim(space_id)) == first_space_index(old, trim(space_id)),
        new[first_space_index(old, trim(space_id))->Some_0].addons.contains_key(trim(addon_id)),
        new[first_space_index(old, trim(space_id))->Some_0].addons[trim(addon_id)] == enabled,
{
    let t = trim(space_id);
    let a = trim(addon_id);
    let i = first_space_index(old, t)->Some_0;
    lemma_first_space_index_facts(old, t);
    let mid = old.update(i, with_addon(old[i], a, enabled));
    crate::text::lemma_trim_idempotent(space_id);
    crate::text::lemma_trim_idempotent(addon_id);
    assert(mid[i].space_id == t);
    assert(repair_fault(mid[i], ids_before(mid, i)) is None);
    assert(repair_state(mid[i], ids_before(mid, i), new[i]));
    assert(new[i].space_id == t);
    assert forall|j: int| 0 <= j < i implies new[j].space_id != t by {
        assert(repair_state(mid[j], ids_before(mid, j), new[j]));
        if new[j].space_id == t {
            assert(trim(mid[j].space_id) == t);
            assert(ids_before(mid, i).contains(t));
        }
    }
    lemma_first_space_index(new, t, i);
    // the add-on
    let olda = mid[i].addons;
    assert(olda.contains_key(a));
    assert(new[i].addons.contains_key(trim(a)));
    let j = choose|j: Seq<char>| #[trigger] olda.contains_key(j) && trim(j) == a && olda[j] == new[i].addons[a];
    if j != a {
        assert(old[i].addons.contains_key(j));
    }
}

/// A store that repair accepts: every id is non-blank once trimmed and the
/// trimmed ids differ, no add-on id is blank, and a direct space has at
/// most one member once its members are normalized.
pub open spec fn store_valid(s: Seq<SpaceRecordView>) -> bool {
    &&& forall|i: int| 0 <= i < s.len() ==> trim(#[trigger] s[i].space_id).len() > 0
    &&& forall|i: int, j: int| 0 <= i < j < s.len() ==> trim(#[trigger] s[i].space_id) != trim(#[trigger] s[j].space_id)
    &&& forall|i: int| 0 <= i < s.len() ==> !has_blank_key(#[trigger] s[i].addons)
    &&& forall|i: int|
        0 <= i < s.len() && (#[trigger] s[i]).kind == SpaceKind::Direct ==> normalized_members(s[i].members).len() <= 1
}

/// A space as repair leaves it: id, name, members and add-on ids trimmed
/// and non-blank, a blank name replaced by the id, the members strictly
/// increasing.
pub open spec fn space_normal(old: SpaceRecordView, new: SpaceRecordView) -> bool {
    &&& new.space_id == trim(old.space_id)
    &&& new.space_id.len() > 0
    &&& new.name == repaired_name(old)
    &&& new.name.len() > 0
    &&& new.kind == old.kind
    &&& new.active == old.active
    &&& crate::text::strictly_sorted(new.members)
    &&& forall|m: int| 0 <= m < new.members.len() ==> (#[trigger] new.members[m]).len() > 0 && trim(new.members[m]) == new.members[m]
    &&& forall|k: Seq<char>| #[trigger] new.addons.contains_key(k) ==> k.len() > 0 && trim(k) == k
}

/// What repair comes to, in the store's own terms: it succeeds exactly on
/// a valid store, and then every space is normal.
pub proof fn lemma_repair_outcome(old: Seq<SpaceRecordView>, new: Seq<SpaceRecordView>, res: Result<(), SpaceError>)
    requires
        store_repair(old, new, res),
    ensures
        res is Ok <==> store_valid(old),
        res is Ok ==> forall|i: int| 0 <= i < old.len() ==> space_normal(old[i], #[trigger] new[i]),
{
    match res {
        Ok(_) => {
            assert forall|i: int| 0 <= i < old.len() implies trim(#[trigger] old[i].space_id).len() > 0 by {
                assert(repair_fault(old[i], ids_before(old, i)) is None);
            }
            assert forall|i: int, j: int| 0 <= i < j < old.len() implies trim(#[trigger] old[i].space_id) != trim(
                #[trigger] old[j].space_id,
            ) by {
                assert(repair_fault(old[j], ids_before(old, j)) is None);
                assert(ids_before(old, j).contains(trim(old[i].space_id)));
            }
            assert forall|i: int| 0 <= i < old.len() implies !has_blank_key(#[trigger] old[i].addons) by {
                assert(repair_fault(old[i], ids_before(old, i)) is None);
            }
            assert forall|i: int|
                0 <= i < old.len() && (#[trigger] old[i]).kind == SpaceKind::Direct implies normalized_members(
                old[i].members,
            ).len() <= 1 by {
                assert(repair_fault(old[i], ids_before(old, i)) is None);
            }
            assert forall|i: int| 0 <= i < old.len() implies space_normal(old[i], #[trigger] new[i]) by {
                let o = old[i];
                let n = new[i];
                assert(repair_fault(o, ids_before(old, i)) is None);
                assert(repair_state(o, ids_before(old, i), n));
                crate::text::lemma_trim_idempotent(o.space_id);
                crate::text::lemma_trim_idempotent(o.name);
                lemma_normalized_members_idempotent(o.members);
                assert forall|m: int| 0 <= m < n.members.len() implies (#[trigger] n.members[m]).len() > 0 && trim(
                    n.members[m],
                ) == n.members[m] by {
                    let x = n.members[m];
                    assert(n.members.to_set().contains(x));
                    assert(crate::text::trimmed_nonempty_set(o.members).contains(x));
                    let j = choose|j: int| 0 <= j < o.members.len() && trim(#[trigger] o.members[j]) == x;
                    crate::text::lemma_trim_idempotent(o.members[j]);
                }
                assert forall|k: Seq<char>| #[trigger] n.addons.contains_key(k) implies k.len() > 0 && trim(k) == k by {
                    let j = choose|j: Seq<char>| #[trigger] o.addons.contains_key(j) && trim(j) == k && o.addons[j] == n.addons[k];
                    crate::text::lemma_trim_idempotent(j);
                    if k.len() == 0 {
                        assert(has_blank_key(o.addons));
                    }
                }
            }
        },
        Err(e) => {
            let k = choose|k: int|
                {
                    &&& 0 <= k < old.len()
                    &&& repaired_prefix(old, new, k)
                    &&& #[trigger] repair_fault(old[k], ids_before(old, k)) is Some
                    &&& reports_fault(e, repair_fault(old[k], ids_before(old, k))->Some_0, old[k])
                    &&& repair_state(old[k], ids_before(old, k), new[k])
                    &&& forall|i: int| k < i < old.len() ==> new[i] == old[i]
                };
            if store_valid(old) {
                assert(trim(old[k].space_id).len() > 0);
                assert(!has_blank_key(old[k].addons));
                if ids_before(old, k).contains(trim(old[k].space_id)) {
                    let i = choose|i: int| 0 <= i < k && trim(#[trigger] old[i].space_id) == trim(old[k].space_id);
                    assert(trim(old[i].space_id) != trim(old[k].space_id));
                }
                if old[k].kind == SpaceKind::Direct {
                    assert(normalized_members(old[k].members).len() <= 1);
                }
                assert(false);
            }
        },
    }
}

/// Switching a space on or off in a repaired store: repair then succeeds,
/// and the store differs from before only in that space's flag, found at
/// the same place.
pub proof fn lemma_set_active_on_repaired(
    prev: Seq<SpaceRecordView>,
    old: Seq<SpaceRecordView>,
    new: Seq<SpaceRecordView>,
    space_id: Seq<char>,
    active: bool,
    res: Result<(), SpaceError>,
)
    requires
        store_repair(prev, old, Ok(())),
        first_space_index(old, trim(space_id)) is Some,
        store_repair(
            old.update(
                first_space_index(old, trim(space_id))->Some_0,
                with_active(old[first_space_index(old, trim(space_id))->Some_0], active),
            ),
            new,
            res,
        ),
    ensures
        res is Ok,
        new == old.update(
            first_space_index(old, trim(space_id))->Some_0,
            with_active(old[first_space_index(old, trim(space_id))->Some_0], active),
        ),
        first_space_index(new, trim(space_id)) == first_space_index(old, trim(space_id)),
        new[first_space_index(old, trim(space_id))->Some_0].active == active,
{
    let t = trim(space_id);
    let i = first_space_index(old, t)->Some_0;
    lemma_first_space_index_facts(old, t);
    let mid = old.update(i, with_active(old[i], active));
    assert forall|j: int| 0 <= j < old.len() implies #[trigger] mid[j] == with_active(old[j], mid[j].active) by {}
    lemma_repaired_store_stable(prev, old, mid, new, res);
    lemma_first_space_index_update(old, t, i, with_active(old[i], active));
}

proof fn lemma_member_split(members: Seq<Seq<char>>, connected: Set<Seq<char>>)
    ensures
        connected_members_of(members, connected).to_multiset().add(missing_members_of(members, connected).to_multiset())
            == members.to_multiset(),
    decreases members.len(),
{
    broadcast use vstd::seq_lib::group_to_multiset_ensures;

    if members.len() == 0 {
        reveal(Seq::filter);
        assert(connected_members_of(members, connected) =~= Seq::<Seq<char>>::empty());
        assert(missing_members_of(members, connected) =~= Seq::<Seq<char>>::empty());
        assert(vstd::multiset::Multiset::<Seq<char>>::empty().add(vstd::multiset::Multiset::empty()) =~= vstd::multiset::Multiset::empty());
    } else {
        let d = members.drop_last();
        let m = members.last();
        lemma_member_split(d, connected);
        assert(members =~= d.push(m));
        crate::text::lemma_filter_push(d, |x: Seq<char>| connected.contains(x), m);
        crate::text::lemma_filter_push(d, |x: Seq<char>| !connected.contains(x), m);
        let c = connected_members_of(d, connected);
        let g = missing_members_of(d, connected);
        if connected.contains(m) {
            assert(connected_members_of(members, connected) == c.push(m));
            assert(missing_members_of(members, connected) == g);
            assert(c.push(m).to_multiset() == c.to_multiset().insert(m));
        } else {
            assert(connected_members_of(members, connected) == c);
            assert(missing_members_of(members, connected) == g.push(m));
            assert(g.push(m).to_multiset() == g.to_multiset().insert(m));
        }
        assert(d.push(m).to_multiset() == d.to_multiset().insert(m));
        assert(connected_members_of(members, connected).to_multiset().add(
            missing_members_of(members, connected).to_multiset(),
        ) =~= members.to_multiset());
    }
}

/// A space's activation state splits its members: the connected ones and
/// the missing ones together are exactly the members, each as often as it
/// is listed; every connected member is among the connected peers and no
/// missing member is, so a member is missing exactly when it is not
/// connected.
pub proof fn lemma_activation_splits_members(r: SpaceRecordView, connected: Set<Seq<char>>, a: SpaceActivationView)
    requires
        a == activation_of(r, connected),
    ensures
        a.connected_members.to_multiset().add(a.missing_members.to_multiset()) == r.members.to_multiset(),
        forall|i: int| 0 <= i < a.connected_members.len() ==> connected.contains(#[trigger] a.connected_members[i]),
        forall|i: int| 0 <= i < a.missing_members.len() ==> !connected.contains(#[trigger] a.missing_members[i]),
        forall|i: int|
            0 <= i < r.members.len() ==> (!connected.contains(#[trigger] r.members[i]) <==> a.missing_members.contains(
                r.members[i],
            )),
        a.space_id == r.space_id,
        a.active == r.active,
{
    broadcast use vstd::seq_lib::group_filter_ensures;

    lemma_member_split(r.members, connected);
    let cp = |x: Seq<char>| connected.contains(x);
    let mp = |x: Seq<char>| !connected.contains(x);
    assert forall|i: int| 0 <= i < a.connected_members.len() implies connected.contains(#[trigger] a.connected_members[i]) by {
        r.members.lemma_filter_pred(cp, i);
    }
    assert forall|i: int| 0 <= i < a.missing_members.len() implies !connected.contains(#[trigger] a.missing_members[i]) by {
        r.members.lemma_filter_pred(mp, i);
    }
    assert forall|i: int|
        0 <= i < r.members.len() implies (!connected.contains(#[trigger] r.members[i]) <==> a.missing_members.contains(
        r.members[i],
    )) by {
        if !connected.contains(r.members[i]) {
            r.members.lemma_filter_contains(mp, i);
        }
        if a.missing_members.contains(r.members[i]) {
            let k = choose|k: int| 0 <= k < a.missing_members.len() && a.missing_members[k] == r.members[i];
            r.members.lemma_filter_pred(mp, k);
        }
    }
}

} // verus!
