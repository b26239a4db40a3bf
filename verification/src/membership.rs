//! Space membership: who owns a space, invites, joining, leaving, and the
//! owner-authoritative updates that keep members' copies in step.
use crate::spaces::{
    first_space_index, SpaceError, SpaceKind, SpaceRecord, SpaceRecordView, SpaceStore,
};
use crate::ids::{is_uuid_v4_text, new_uuid_v4};
use crate::strmap::StrMap;
use crate::text::{clone_strings, contains_str, lemma_filter_push, sort_dedup, sorted_seq_of, str_eq, trim, trim_str};
use vstd::prelude::*;

verus! {

#[derive(Clone, Copy, Debug, PartialEq, Eq, Structural)]
pub enum SpaceRole {
    Owner,
    Member,
}

#[derive(Clone, Copy, Debug, PartialEq, Eq, Structural)]
pub enum SpaceInviteStatus {
    Pending,
    Accepted,
    Declined,
}

/// The invite a joined space came from.
pub struct SpaceInviteState {
    pub invite_id: String,
    pub invited_by: String,
    pub status: SpaceInviteStatus,
}

pub struct SpaceInviteStateView {
    pub invite_id: Seq<char>,
    pub invited_by: Seq<char>,
    pub status: SpaceInviteStatus,
}

impl View for SpaceInviteState {
    type V = SpaceInviteStateView;

    open spec fn view(&self) -> SpaceInviteStateView {
        SpaceInviteStateView {
            invite_id: self.invite_id@,
            invited_by: self.invited_by@,
            status: self.status,
        }
    }
}

impl Clone for SpaceInviteState {
    fn clone(&self) -> (r: Self)
        ensures
            r@ == self@,
    {
        SpaceInviteState {
            invite_id: self.invite_id.clone(),
            invited_by: self.invited_by.clone(),
            status: self.status,
        }
    }
}

/// This device's relation to one space.
pub struct SpaceMembershipRecord {
    pub space_id: String,
    pub role: SpaceRole,
    pub owner_device_id: String,
    pub revision: u64,
    pub owner_enabled: bool,
    pub key_epoch: u64,
    pub left: bool,
    pub invite_state: Option<SpaceInviteState>,
}

pub struct MembershipRecordView {
    pub space_id: Seq<char>,
    pub role: SpaceRole,
    pub owner_device_id: Seq<char>,
    pub revision: u64,
    pub owner_enabled: bool,
    pub key_epoch: u64,
    pub left: bool,
    pub invite_state: Option<SpaceInviteStateView>,
}

pub open spec fn invite_state_view(s: Option<SpaceInviteState>) -> Option<SpaceInviteStateView> {
    match s {
        Some(i) => Some(i@),
        None => None,
    }
}

impl View for SpaceMembershipRecord {
    type V = MembershipRecordView;

    open spec fn view(&self) -> MembershipRecordView {
        MembershipRecordView {
            space_id: self.space_id@,
            role: self.role,
            owner_device_id: self.owner_device_id@,
            revision: self.revision,
            owner_enabled: self.owner_enabled,
            key_epoch: self.key_epoch,
            left: self.left,
            invite_state: invite_state_view(self.invite_state),
        }
    }
}

impl Clone for SpaceMembershipRecord {
    fn clone(&self) -> (r: Self)
        ensures
            r@ == self@,
    {
        SpaceMembershipRecord {
            space_id: self.space_id.clone(),
            role: self.role,
            owner_device_id: self.owner_device_id.clone(),
            revision: self.revision,
            owner_enabled: self.owner_enabled,
            key_epoch: self.key_epoch,
            left: self.left,
            invite_state: match &self.invite_state {
                Some(s) => Some(s.clone()),
                None => None,
            },
        }
    }
}

/// An invite the owner has sent for a space.
pub struct SpaceInviteRecord {
    pub invite_id: String,
    pub space_id: String,
    pub target_peer_id: String,
    pub invited_by: String,
    pub revision: u64,
    pub status: SpaceInviteStatus,
}

pub struct SpaceInviteRecordView {
    pub invite_id: Seq<char>,
    pub space_id: Seq<char>,
    pub target_peer_id: Seq<char>,
    pub invited_by: Seq<char>,
    pub revision: u64,
    pub status: SpaceInviteStatus,
}

impl View for SpaceInviteRecord {
    type V = SpaceInviteRecordView;

    open spec fn view(&self) -> SpaceInviteRecordView {
        SpaceInviteRecordView {
            invite_id: self.invite_id@,
            space_id: self.space_id@,
            target_peer_id: self.target_peer_id@,
            invited_by: self.invited_by@,
            revision: self.revision,
            status: self.status,
        }
    }
}

impl Clone for SpaceInviteRecord {
    fn clone(&self) -> (r: Self)
        ensures
            r@ == self@,
    {
        SpaceInviteRecord {
            invite_id: self.invite_id.clone(),
            space_id: self.space_id.clone(),
            target_peer_id: self.target_peer_id.clone(),
            invited_by: self.invited_by.clone(),
            revision: self.revision,
            status: self.status,
        }
    }
}

/// A space as an invite carries it to the invited device.
pub struct ImportedSpaceInvite {
    pub space_id: String,
    pub name: String,
    pub kind: SpaceKind,
    pub owner_device_id: String,
    pub invite_id: String,
    pub revision: u64,
    pub owner_enabled: bool,
    pub members: Vec<String>,
    pub key_epoch: u64,
}

pub struct ImportedSpaceInviteView {
    pub space_id: Seq<char>,
    pub name: Seq<char>,
    pub kind: SpaceKind,
    pub owner_device_id: Seq<char>,
    pub invite_id: Seq<char>,
    pub revision: u64,
    pub owner_enabled: bool,
    pub members: Seq<Seq<char>>,
    pub key_epoch: u64,
}

impl View for ImportedSpaceInvite {
    type V = ImportedSpaceInviteView;

    open spec fn view(&self) -> ImportedSpaceInviteView {
        ImportedSpaceInviteView {
            space_id: self.space_id@,
            name: self.name@,
            kind: self.kind,
            owner_device_id: self.owner_device_id@,
            invite_id: self.invite_id@,
            revision: self.revision,
            owner_enabled: self.owner_enabled,
            members: self.members.deep_view(),
            key_epoch: self.key_epoch,
        }
    }
}

/// The owner's snapshot of a space, sent to its members.
pub struct SpaceSyncUpdate {
    pub message_type: String,
    pub space_id: String,
    pub owner_device_id: String,
    pub revision: u64,
    pub name: String,
    pub kind: SpaceKind,
    pub owner_enabled: bool,
    pub members: Vec<String>,
    pub key_epoch: u64,
}

pub struct SpaceSyncUpdateView {
    pub message_type: Seq<char>,
    pub space_id: Seq<char>,
    pub owner_device_id: Seq<char>,
    pub revision: u64,
    pub name: Seq<char>,
    pub kind: SpaceKind,
    pub owner_enabled: bool,
    pub members: Seq<Seq<char>>,
    pub key_epoch: u64,
}

impl View for SpaceSyncUpdate {
    type V = SpaceSyncUpdateView;

    open spec fn view(&self) -> SpaceSyncUpdateView {
        SpaceSyncUpdateView {
            message_type: self.message_type@,
            space_id: self.space_id@,
            owner_device_id: self.owner_device_id@,
            revision: self.revision,
            name: self.name@,
            kind: self.kind,
            owner_enabled: self.owner_enabled,
            members: self.members.deep_view(),
            key_epoch: self.key_epoch,
        }
    }
}

impl Clone for SpaceSyncUpdate {
    fn clone(&self) -> (r: Self)
        ensures
            r@ == self@,
    {
        SpaceSyncUpdate {
            message_type: self.message_type.clone(),
            space_id: self.space_id.clone(),
            owner_device_id: self.owner_device_id.clone(),
            revision: self.revision,
            name: self.name.clone(),
            kind: self.kind,
            owner_enabled: self.owner_enabled,
            members: clone_strings(&self.members),
            key_epoch: self.key_epoch,
        }
    }
}

/// Membership records by space id, and the invites this device has sent.
pub struct SpaceMembershipStore {
    pub records: StrMap<SpaceMembershipRecord>,
    pub invites: Vec<SpaceInviteRecord>,
}

pub struct MembershipView {
    pub records: Map<Seq<char>, MembershipRecordView>,
    pub invites: Seq<SpaceInviteRecordView>,
}

pub open spec fn invites_view(s: Seq<SpaceInviteRecord>) -> Seq<SpaceInviteRecordView> {
    s.map_values(|i: SpaceInviteRecord| i@)
}

impl Default for SpaceMembershipStore {
    fn default() -> (s: Self)
        ensures
            s@.records == Map::<Seq<char>, MembershipRecordView>::empty(),
            s@.invites.len() == 0,
    {
        SpaceMembershipStore { records: StrMap::new(), invites: Vec::new() }
    }
}

impl View for SpaceMembershipStore {
    type V = MembershipView;

    open spec fn view(&self) -> MembershipView {
        MembershipView { records: self.records@, invites: invites_view(self.invites@) }
    }
}

#[derive(Debug)]
pub enum MembershipError {
    Space(SpaceError),
    UnknownSpace { space_id: String },
    NoMembership { space_id: String },
    NotOwner,
    EmptyTargetPeer,
    AlreadyMember,
    OwnInvite,
    SpaceExistsLocally { space_id: String },
    NotJoined,
    AlreadyLeft,
    NoInviteState,
    InviteNotPending,
    EmptyPeerId,
    OwnerCannotLeave,
    OwnerMismatch,
    EmptyInviteId,
    EmptyInviteSpaceId,
    EmptyInviteTarget,
    EmptyInviteSender,
    RandomUnavailable,
}

/// The value of `revision.saturating_add(1).max(1)`.
pub open spec fn bumped(revision: u64) -> u64 {
    if revision == u64::MAX {
        u64::MAX
    } else {
        (revision + 1) as u64
    }
}

pub open spec fn max1(x: u64) -> u64 {
    if x == 0 {
        1
    } else {
        x
    }
}

/// Whether a record makes `local` the owner: it is an owner record whose
/// owner is `local` or unset.
pub open spec fn owns(r: MembershipRecordView, local: Seq<char>) -> bool {
    r.role == SpaceRole::Owner && (r.owner_device_id.len() == 0 || r.owner_device_id == local)
}

/// `m` holds a record for `space_id` that makes `local` its owner.
pub open spec fn owner_of(m: MembershipView, local: Seq<char>, space_id: Seq<char>) -> bool {
    m.records.contains_key(space_id) && owns(m.records[space_id], local)
}

pub open spec fn unknown_space_error(e: MembershipError, id: Seq<char>) -> bool {
    match e {
        MembershipError::UnknownSpace { space_id } => space_id@ == id,
        _ => false,
    }
}

pub open spec fn exists_locally_error(e: MembershipError, id: Seq<char>) -> bool {
    match e {
        MembershipError::SpaceExistsLocally { space_id } => space_id@ == id,
        _ => false,
    }
}

pub open spec fn no_membership_error(e: MembershipError, id: Seq<char>) -> bool {
    match e {
        MembershipError::NoMembership { space_id } => space_id@ == id,
        _ => false,
    }
}

/// The error for a failed owner check.
pub open spec fn owner_check_error(
    m: MembershipView,
    space_id: Seq<char>,
    e: MembershipError,
) -> bool {
    if !m.records.contains_key(space_id) {
        no_membership_error(e, space_id)
    } else {
        e is NotOwner
    }
}

pub open spec fn space_exists(spaces: Seq<SpaceRecordView>, id: Seq<char>) -> bool {
    first_space_index(spaces, id) is Some
}

/// The space with the given id (the first one).
pub open spec fn space_with_id(spaces: Seq<SpaceRecordView>, id: Seq<char>) -> SpaceRecordView {
    spaces[first_space_index(spaces, id)->Some_0]
}

/// The snapshot the owner sends for a space.
pub open spec fn update_of(space: SpaceRecordView, r: MembershipRecordView) -> SpaceSyncUpdateView {
    SpaceSyncUpdateView {
        message_type: seq!['s', 'p', 'a', 'c', 'e', '_', 'u', 'p', 'd', 'a', 't', 'e'],
        space_id: space.space_id,
        owner_device_id: r.owner_device_id,
        revision: r.revision,
        name: space.name,
        kind: space.kind,
        owner_enabled: r.owner_enabled,
        members: space.members,
        key_epoch: r.key_epoch,
    }
}

/// The record a space's creator keeps.
pub open spec fn owner_record(space_id: Seq<char>, owner: Seq<char>) -> MembershipRecordView {
    MembershipRecordView {
        space_id,
        role: SpaceRole::Owner,
        owner_device_id: owner,
        revision: 1,
        owner_enabled: true,
        key_epoch: 1,
        left: false,
        invite_state: None,
    }
}

/// The record an invited device keeps until it accepts or declines.
pub open spec fn pending_record(i: ImportedSpaceInviteView) -> MembershipRecordView {
    MembershipRecordView {
        space_id: i.space_id,
        role: SpaceRole::Member,
        owner_device_id: i.owner_device_id,
        revision: max1(i.revision),
        owner_enabled: i.owner_enabled,
        key_epoch: max1(i.key_epoch),
        left: false,
        invite_state: Some(
            SpaceInviteStateView {
                invite_id: i.invite_id,
                invited_by: i.owner_device_id,
                status: SpaceInviteStatus::Pending,
            },
        ),
    }
}

/// A result with the record taken by its view.
pub open spec fn record_result_view(r: Result<SpaceRecord, MembershipError>) -> Result<SpaceRecordView, MembershipError> {
    match r {
        Ok(s) => Ok(s@),
        Err(e) => Err(e),
    }
}

/// What importing `inv` does: `m0`, `s0` before, `m1`, `s1` after.
pub open spec fn import_invite_post(
    m0: MembershipView,
    s0: Seq<SpaceRecordView>,
    local: Seq<char>,
    i: ImportedSpaceInviteView,
    m1: MembershipView,
    s1: Seq<SpaceRecordView>,
    r: Result<SpaceRecordView, MembershipError>,
) -> bool {
    if i.owner_device_id == local {
        m1 == m0 && s1 == s0 && r matches Err(MembershipError::OwnInvite)
    } else if space_exists(s0, i.space_id) {
        m1 == m0 && s1 == s0 && r is Err && exists_locally_error(r->Err_0, i.space_id)
    } else {
        let space = SpaceRecordView {
            space_id: i.space_id,
            name: i.name,
            kind: i.kind,
            active: false,
            members: members_with(i.members, i.owner_device_id),
            addons: Map::empty(),
        };
        &&& r == Ok::<SpaceRecordView, MembershipError>(space)
        &&& s1 == s0.push(space)
        &&& m1.records == m0.records.insert(i.space_id, pending_record(i))
        &&& m1.invites == m0.invites
    }
}

/// An update result with the update taken by its view.
pub open spec fn update_result_view(r: Result<SpaceSyncUpdate, MembershipError>) -> Result<SpaceSyncUpdateView, MembershipError> {
    match r {
        Ok(u) => Ok(u@),
        Err(e) => Err(e),
    }
}

/// A result with the optional record taken by its view.
pub open spec fn option_record_result_view(r: Result<Option<SpaceRecord>, MembershipError>) -> Result<Option<SpaceRecordView>, MembershipError> {
    match r {
        Ok(Some(s)) => Ok(Some(s@)),
        Ok(None) => Ok(None),
        Err(e) => Err(e),
    }
}

/// What the owner's recording of `peer`'s acceptance does.
pub open spec fn acceptance_post(
    m0: MembershipView,
    s0: Seq<SpaceRecordView>,
    local: Seq<char>,
    space_id: Seq<char>,
    peer: Seq<char>,
    m1: MembershipView,
    s1: Seq<SpaceRecordView>,
    r: Result<SpaceSyncUpdateView, MembershipError>,
) -> bool {
    let t = trim(peer);
    if t.len() == 0 {
        m1 == m0 && s1 == s0 && r matches Err(MembershipError::EmptyPeerId)
    } else if !owner_of(m0, local, space_id) {
        m1 == m0 && s1 == s0 && r is Err && owner_check_error(m0, space_id, r->Err_0)
    } else if !space_exists(s0, space_id) {
        &&& m1.records == m0.records
        &&& m1.invites == accept_invites_of(m0.invites, space_id, t)
        &&& s1 == s0
        &&& r is Err && unknown_space_error(r->Err_0, space_id)
    } else {
        let rec = MembershipRecordView { revision: bumped(m0.records[space_id].revision), ..m0.records[space_id] };
        let old_s = space_with_id(s0, space_id);
        let s = SpaceRecordView { members: members_with(old_s.members, t), ..old_s };
        &&& m1.records == m0.records.insert(space_id, rec)
        &&& m1.invites == accept_invites_of(m0.invites, space_id, t)
        &&& s1 == replace_space(s0, space_id, s)
        &&& r == Ok::<SpaceSyncUpdateView, MembershipError>(update_of(s, rec))
    }
}

/// What a member's applying of the owner's update `u` does.
pub open spec fn owner_update_post(
    m0: MembershipView,
    s0: Seq<SpaceRecordView>,
    u: SpaceSyncUpdateView,
    m1: MembershipView,
    s1: Seq<SpaceRecordView>,
    r: Result<Option<SpaceRecordView>, MembershipError>,
) -> bool {
    let rec = m0.records[u.space_id];
    if !m0.records.contains_key(u.space_id) {
        m1 == m0 && s1 == s0 && r is Err && no_membership_error(r->Err_0, u.space_id)
    } else if rec.role != SpaceRole::Member {
        m1 == m0 && s1 == s0 && r matches Err(MembershipError::NotJoined)
    } else if rec.owner_device_id != u.owner_device_id {
        m1 == m0 && s1 == s0 && r matches Err(MembershipError::OwnerMismatch)
    } else if rec.left || u.revision <= rec.revision {
        m1 == m0 && s1 == s0 && r matches Ok(None)
    } else {
        let new_rec = MembershipRecordView {
            revision: u.revision,
            owner_enabled: u.owner_enabled,
            key_epoch: u.key_epoch,
            ..rec
        };
        &&& m1.records == m0.records.insert(u.space_id, new_rec)
        &&& m1.invites == m0.invites
        &&& if !space_exists(s0, u.space_id) {
            s1 == s0 && r is Err && unknown_space_error(r->Err_0, u.space_id)
        } else {
            let s = SpaceRecordView { name: u.name, kind: u.kind, members: u.members, ..space_with_id(s0, u.space_id) };
            s1 == replace_space(s0, u.space_id, s) && r == Ok::<Option<SpaceRecordView>, MembershipError>(Some(s))
        }
    }
}

/// `m1`, `s1` and `r` are what repairing `m0` and `s0` gives once the
/// spaces were repaired without error into `mid`.
pub open spec fn repaired_through(
    m0: MembershipView,
    s0: Seq<SpaceRecordView>,
    m1: MembershipView,
    s1: Seq<SpaceRecordView>,
    r: Result<(), MembershipError>,
    mid: Seq<SpaceRecordView>,
) -> bool {
    &&& crate::spaces::store_repair(s0, mid, Ok(()))
    &&& m1.records == repaired_records(m0.records, mid)
    &&& s1 == deactivate(mid, left_space_ids(repaired_records(m0.records, mid)))
    &&& match first_bad_invite(m0.invites) {
        Some(k) => {
            &&& r == Err::<(), MembershipError>(invite_error(m0.invites[k])->Some_0)
            &&& m1.invites == invites_after_repair(m0.invites)
        },
        None => {
            &&& r is Ok
            &&& m1.invites == known_invites(invites_after_repair(m0.invites), mid)
        },
    }
}

/// What repairing the spaces and the membership does.
pub open spec fn membership_repair_post(
    m0: MembershipView,
    s0: Seq<SpaceRecordView>,
    m1: MembershipView,
    s1: Seq<SpaceRecordView>,
    r: Result<(), MembershipError>,
) -> bool {
    &&& r matches Err(MembershipError::Space(e)) ==> m1 == m0 && crate::spaces::store_repair(s0, s1, Err(e))
    &&& !(r matches Err(MembershipError::Space(_))) ==> exists|mid: Seq<SpaceRecordView>|
        #[trigger] repaired_through(m0, s0, m1, s1, r, mid)
}

fn space_update_literal() -> (s: String)
    ensures
        s@ == seq!['s', 'p', 'a', 'c', 'e', '_', 'u', 'p', 'd', 'a', 't', 'e'],
{
    let s = "space_update";
    proof {
        reveal_strlit("space_update");
    }
    s.to_owned()
}

impl SpaceMembershipRecord {
    /// The record of a space this device created.
    pub fn owner(space_id: String, owner_device_id: String) -> (r: Self)
        ensures
            r@ == owner_record(space_id@, owner_device_id@),
    {
        SpaceMembershipRecord {
            space_id,
            role: SpaceRole::Owner,
            owner_device_id,
            revision: 1,
            owner_enabled: true,
            key_epoch: 1,
            left: false,
            invite_state: None,
        }
    }

    /// The record of a space this device was invited into, pending acceptance.
    pub fn joined_pending(invite: &ImportedSpaceInvite) -> (r: Self)
        ensures
            r@ == pending_record(invite@),
    {
        SpaceMembershipRecord {
            space_id: invite.space_id.clone(),
            role: SpaceRole::Member,
            owner_device_id: invite.owner_device_id.clone(),
            revision: if invite.revision == 0 {
                1
            } else {
                invite.revision
            },
            owner_enabled: invite.owner_enabled,
            key_epoch: if invite.key_epoch == 0 {
                1
            } else {
                invite.key_epoch
            },
            left: false,
            invite_state: Some(
                SpaceInviteState {
                    invite_id: invite.invite_id.clone(),
                    invited_by: invite.owner_device_id.clone(),
                    status: SpaceInviteStatus::Pending,
                },
            ),
        }
    }

    /// Whether this record makes `local_device_id` the space's owner.
    pub fn is_owner_for(&self, local_device_id: &str) -> (r: bool)
        ensures
            r == owns(self@, local_device_id@),
    {
        self.role == SpaceRole::Owner && (self.owner_device_id.as_str().is_empty() || str_eq(
            self.owner_device_id.as_str(),
            local_device_id,
        ))
    }
}

/// The first space with the given id.
fn ensure_space_exists<'a>(spaces: &'a SpaceStore, space_id: &str) -> (r: Result<&'a SpaceRecord, MembershipError>)
    ensures
        match r {
            Ok(s) => space_exists(spaces@, space_id@) && s@ == space_with_id(spaces@, space_id@),
            Err(e) => !space_exists(spaces@, space_id@) && unknown_space_error(e, space_id@),
        },
{
    match spaces.find_space(space_id) {
        Some(i) => Ok(&spaces.spaces[i]),
        None => Err(MembershipError::UnknownSpace { space_id: space_id.to_owned() }),
    }
}

/// The revision after one more owner change.
fn bump(record: &mut SpaceMembershipRecord)
    ensures
        final(record)@ == (MembershipRecordView { revision: bumped(old(record).revision), ..old(record)@ }),
{
    record.revision = if record.revision == u64::MAX {
        u64::MAX
    } else {
        record.revision + 1
    };
}

impl SpaceMembershipStore {
    pub fn new() -> (s: Self)
        ensures
            s@.records == Map::<Seq<char>, MembershipRecordView>::empty(),
            s@.invites.len() == 0,
    {
        SpaceMembershipStore { records: StrMap::new(), invites: Vec::new() }
    }

    /// The record of a space.
    fn record(&self, space_id: &str) -> (r: Result<&SpaceMembershipRecord, MembershipError>)
        ensures
            match r {
                Ok(rec) => self@.records.contains_key(space_id@) && rec@ == self@.records[space_id@],
                Err(e) => !self@.records.contains_key(space_id@) && no_membership_error(e, space_id@),
            },
    {
        match self.records.get(space_id) {
            Some(r) => Ok(r),
            None => Err(MembershipError::NoMembership { space_id: space_id.to_owned() }),
        }
    }

    /// A copy of the record of a space, to change and put back.
    fn record_mut(&self, space_id: &str) -> (r: Result<SpaceMembershipRecord, MembershipError>)
        ensures
            match r {
                Ok(rec) => self@.records.contains_key(space_id@) && rec@ == self@.records[space_id@],
                Err(e) => !self@.records.contains_key(space_id@) && no_membership_error(e, space_id@),
            },
    {
        match self.records.get(space_id) {
            Some(r) => Ok(r.clone()),
            None => Err(MembershipError::NoMembership { space_id: space_id.to_owned() }),
        }
    }

    /// Fails unless `local_device_id` owns the space.
    fn ensure_owner(&self, local_device_id: &str, space_id: &str) -> (r: Result<(), MembershipError>)
        ensures
            match r {
                Ok(_) => owner_of(self@, local_device_id@, space_id@),
                Err(e) => !owner_of(self@, local_device_id@, space_id@) && owner_check_error(self@, space_id@, e),
            },
    {
        let record = self.record(space_id)?;
        if record.is_owner_for(local_device_id) {
            Ok(())
        } else {
            Err(MembershipError::NotOwner)
        }
    }

    /// Records this device as the owner of an existing space, unless the
    /// space already has a record.
    pub fn ensure_owned_space(&mut self, spaces: &SpaceStore, space_id: &str, owner_device_id: &str) -> (r: Result<(), MembershipError>)
        ensures
            match r {
                Ok(_) => space_exists(spaces@, space_id@) && final(self)@.invites == old(self)@.invites && (
                if old(self)@.records.contains_key(space_id@) {
                    final(self)@.records == old(self)@.records
                } else {
                    final(self)@.records == old(self)@.records.insert(
                        space_id@,
                        owner_record(space_id@, owner_device_id@),
                    )
                }),
                Err(e) => !space_exists(spaces@, space_id@) && final(self)@ == old(self)@ && unknown_space_error(e, space_id@),
            },
    {
        ensure_space_exists(spaces, space_id)?;
        if !self.records.contains_key(space_id) {
            self.records.insert(
                space_id.to_owned(),
                SpaceMembershipRecord::owner(space_id.to_owned(), owner_device_id.to_owned()),
            );
        }
        Ok(())
    }

    /// The owner's snapshot of a space.
    pub fn sync_update(&self, spaces: &SpaceStore, local_device_id: &str, space_id: &str) -> (r: Result<SpaceSyncUpdate, MembershipError>)
        ensures
            match r {
                Ok(u) => owner_of(self@, local_device_id@, space_id@) && space_exists(spaces@, space_id@) && u@
                    == update_of(space_with_id(spaces@, space_id@), self@.records[space_id@]),
                Err(e) => if !owner_of(self@, local_device_id@, space_id@) {
                    owner_check_error(self@, space_id@, e)
                } else {
                    !space_exists(spaces@, space_id@) && unknown_space_error(e, space_id@)
                },
            },
    {
        self.ensure_owner(local_device_id, space_id)?;
        let space = ensure_space_exists(spaces, space_id)?;
        let record = self.record(space_id)?;
        Ok(
            SpaceSyncUpdate {
                message_type: space_update_literal(),
                space_id: space.space_id.clone(),
                owner_device_id: record.owner_device_id.clone(),
                revision: record.revision,
                name: space.name.clone(),
                kind: space.kind,
                owner_enabled: record.owner_enabled,
                members: clone_strings(&space.members),
                key_epoch: record.key_epoch,
            },
        )
    }

    /// The owner turns a space on or off for its members; the revision moves on.
    pub fn set_owner_enabled(&mut self, spaces: &SpaceStore, local_device_id: &str, space_id: &str, enabled: bool) -> (r: Result<SpaceSyncUpdate, MembershipError>)
        ensures
            owner_of(old(self)@, local_device_id@, space_id@) ==> {
                let rec = MembershipRecordView {
                    owner_enabled: enabled,
                    revision: bumped(old(self)@.records[space_id@].revision),
                    ..old(self)@.records[space_id@]
                };
                &&& final(self)@.records == old(self)@.records.insert(space_id@, rec)
                &&& final(self)@.invites == old(self)@.invites
                &&& match r {
                    Ok(u) => space_exists(spaces@, space_id@) && u@ == update_of(space_with_id(spaces@, space_id@), rec),
                    Err(e) => !space_exists(spaces@, space_id@) && unknown_space_error(e, space_id@),
                }
            },
            !owner_of(old(self)@, local_device_id@, space_id@) ==> final(self)@ == old(self)@ && r is Err
                && owner_check_error(old(self)@, space_id@, r->Err_0),
    {
        self.ensure_owner(local_device_id, space_id)?;
        let mut record = self.record_mut(space_id)?;
        record.owner_enabled = enabled;
        bump(&mut record);
        self.records.insert(space_id.to_owned(), record);
        self.sync_update(spaces, local_device_id, space_id)
    }
}


/// Whether an invite request gets past every check and finds no pending
/// invite, so that a new invite is made.
pub open spec fn needs_new_invite(
    m: MembershipView,
    spaces: Seq<SpaceRecordView>,
    local: Seq<char>,
    space_id: Seq<char>,
    target: Seq<char>,
) -> bool {
    let t = trim(target);
    &&& t.len() > 0
    &&& owner_of(m, local, space_id)
    &&& space_exists(spaces, space_id)
    &&& !space_with_id(spaces, space_id).members.contains(t)
    &&& first_pending_invite(m.invites, space_id, t) is None
}

/// What an invite request does, when a new invite would get the id
/// `invite_id`: the checks' errors leave everything as it was, a pending
/// invite for the same target is handed back, and otherwise the space's
/// revision moves on and the new pending invite is appended and returned.
pub open spec fn invite_post(
    old_m: MembershipView,
    new_m: MembershipView,
    spaces: Seq<SpaceRecordView>,
    local: Seq<char>,
    space_id: Seq<char>,
    target: Seq<char>,
    invite_id: Seq<char>,
    r: Result<SpaceInviteRecord, MembershipError>,
) -> bool {
    let t = trim(target);
    if t.len() == 0 {
        new_m == old_m && r matches Err(MembershipError::EmptyTargetPeer)
    } else if !owner_of(old_m, local, space_id) {
        new_m == old_m && r is Err && owner_check_error(old_m, space_id, r->Err_0)
    } else if !space_exists(spaces, space_id) {
        new_m == old_m && r is Err && unknown_space_error(r->Err_0, space_id)
    } else if space_with_id(spaces, space_id).members.contains(t) {
        new_m == old_m && r matches Err(MembershipError::AlreadyMember)
    } else if first_pending_invite(old_m.invites, space_id, t) is Some {
        new_m == old_m && r is Ok && r->Ok_0@ == old_m.invites[first_pending_invite(old_m.invites, space_id, t)->Some_0]
    } else {
        let rev = bumped(old_m.records[space_id].revision);
        &&& new_m.records == old_m.records.insert(space_id, MembershipRecordView { revision: rev, ..old_m.records[space_id] })
        &&& r matches Ok(inv)
        &&& inv.invite_id@ == invite_id
        &&& inv.space_id@ == space_id
        &&& inv.target_peer_id@ == t
        &&& inv.invited_by@ == local
        &&& inv.revision == rev
        &&& inv.status == SpaceInviteStatus::Pending
        &&& new_m.invites == old_m.invites.push(inv@)
    }
}

/// The index of the first pending invite for `target` in `space_id`.
pub open spec fn first_pending_invite(
    invites: Seq<SpaceInviteRecordView>,
    space_id: Seq<char>,
    target: Seq<char>,
) -> Option<int> {
    if exists|i: int| 0 <= i < invites.len() && #[trigger] pending_for(invites[i], space_id, target) {
        Some(
            choose|i: int|
                0 <= i < invites.len() && #[trigger] pending_for(invites[i], space_id, target) && forall|j: int|
                    0 <= j < i ==> !pending_for(invites[j], space_id, target),
        )
    } else {
        None
    }
}

pub open spec fn pending_for(i: SpaceInviteRecordView, space_id: Seq<char>, target: Seq<char>) -> bool {
    i.space_id == space_id && i.target_peer_id == target && i.status == SpaceInviteStatus::Pending
}

proof fn lemma_first_pending_invite(invites: Seq<SpaceInviteRecordView>, space_id: Seq<char>, target: Seq<char>, i: int)
    requires
        0 <= i < invites.len(),
        pending_for(invites[i], space_id, target),
        forall|j: int| 0 <= j < i ==> !pending_for(invites[j], space_id, target),
    ensures
        first_pending_invite(invites, space_id, target) == Some(i),
{
    let k = choose|k: int|
        0 <= k < invites.len() && #[trigger] pending_for(invites[k], space_id, target) && forall|j: int|
            0 <= j < k ==> !pending_for(invites[j], space_id, target);
    assert(pending_for(invites[i], space_id, target));
    assert(0 <= k < invites.len() && pending_for(invites[k], space_id, target));
    if k < i {
        assert(!pending_for(invites[k], space_id, target));
    }
    if i < k {
        assert(!pending_for(invites[i], space_id, target));
    }
}

/// The space `space` replaced at the index of its id.
pub open spec fn replace_space(spaces: Seq<SpaceRecordView>, id: Seq<char>, space: SpaceRecordView) -> Seq<SpaceRecordView> {
    spaces.update(first_space_index(spaces, id)->Some_0, space)
}

/// The invites with those of `target` in `space_id` marked accepted.
pub open spec fn accept_invites_of(
    invites: Seq<SpaceInviteRecordView>,
    space_id: Seq<char>,
    target: Seq<char>,
) -> Seq<SpaceInviteRecordView> {
    invites.map_values(
        |i: SpaceInviteRecordView|
            if i.space_id == space_id && i.target_peer_id == target {
                SpaceInviteRecordView { status: SpaceInviteStatus::Accepted, ..i }
            } else {
                i
            },
    )
}

/// The members after `peer` is added: sorted, each once.
pub open spec fn members_with(members: Seq<Seq<char>>, peer: Seq<char>) -> Seq<Seq<char>> {
    sorted_seq_of(members.to_set().insert(peer))
}

/// The members without `peer`, in order.
pub open spec fn members_without(members: Seq<Seq<char>>, peer: Seq<char>) -> Seq<Seq<char>> {
    members.filter(|m: Seq<char>| m != peer)
}

/// The record with its invite marked accepted.
pub open spec fn accepted_record(r: MembershipRecordView) -> MembershipRecordView {
    MembershipRecordView {
        invite_state: Some(SpaceInviteStateView { status: SpaceInviteStatus::Accepted, ..r.invite_state->Some_0 }),
        ..r
    }
}

/// The record after declining: its invite, if any, marked declined, and left.
pub open spec fn declined_record(r: MembershipRecordView) -> MembershipRecordView {
    MembershipRecordView {
        invite_state: match r.invite_state {
            Some(s) => Some(SpaceInviteStateView { status: SpaceInviteStatus::Declined, ..s }),
            None => None,
        },
        left: true,
        ..r
    }
}

/// The record after leaving: left, without keys or invite.
pub open spec fn left_record(r: MembershipRecordView) -> MembershipRecordView {
    MembershipRecordView { left: true, key_epoch: 0, invite_state: None, ..r }
}

/// Whether the spaces list holds a pending joined invite for `s`.
pub open spec fn is_pending_joined(m: MembershipView, s: SpaceRecordView) -> bool {
    m.records.contains_key(s.space_id) && match m.records[s.space_id].invite_state {
        Some(st) => st.status == SpaceInviteStatus::Pending,
        None => false,
    }
}

/// Removes every occurrence of `peer`.
pub fn remove_member(members: &Vec<String>, peer: &str) -> (r: Vec<String>)
    ensures
        r.deep_view() == members_without(members.deep_view(), peer@),
{
    let mut out: Vec<String> = Vec::new();
    let ghost ms = members.deep_view();
    let mut i: usize = 0;
    while i < members.len()
        invariant
            ms == members.deep_view(),
            i <= ms.len(),
            out.deep_view() == members_without(ms.take(i as int), peer@),
        decreases ms.len() - i,
    {
        let m = members[i].clone();
        let ghost mv = m@;
        proof {
            assert(ms.take(i + 1) == ms.take(i as int).push(mv));
            lemma_filter_push(ms.take(i as int), |x: Seq<char>| x != peer@, mv);
        }
        if !str_eq(m.as_str(), peer) {
            let ghost before = out.deep_view();
            out.push(m);
            proof {
                assert(out.deep_view() =~= before.push(mv));
            }
        }
        i = i + 1;
    }
    proof {
        assert(ms.take(ms.len() as int) == ms);
    }
    out
}

/// Adds `peer` and sorts, each member once.
fn add_member(members: &Vec<String>, peer: &str) -> (r: Vec<String>)
    ensures
        r.deep_view() == members_with(members.deep_view(), peer@),
{
    let mut all = clone_strings(members);
    let ghost before = all.deep_view();
    let p = peer.to_owned();
    all.push(p);
    proof {
        assert(all.deep_view() =~= before.push(peer@));
        assert(all.deep_view().to_set() =~= members.deep_view().to_set().insert(peer@)) by {
            assert forall|y: Seq<char>| all.deep_view().to_set().contains(y) <==> members.deep_view().to_set().insert(peer@).contains(y) by {
                if all.deep_view().to_set().contains(y) {
                    let k = choose|k: int| 0 <= k < all.deep_view().len() && all.deep_view()[k] == y;
                    if k < before.len() {
                        assert(members.deep_view()[k] == y);
                    }
                }
                if members.deep_view().to_set().contains(y) {
                    let k = choose|k: int| 0 <= k < members.deep_view().len() && members.deep_view()[k] == y;
                    assert(all.deep_view()[k] == y);
                }
                if y == peer@ {
                    assert(all.deep_view()[before.len() as int] == y);
                }
            }
        }
    }
    sort_dedup(&all)
}

/// The index of the first pending invite for `target` in `space_id`.
fn find_pending_invite(invites: &Vec<SpaceInviteRecord>, space_id: &str, target: &str) -> (r: Option<usize>)
    ensures
        match r {
            Some(i) => i < invites@.len() && first_pending_invite(invites_view(invites@), space_id@, target@) == Some(i as int),
            None => first_pending_invite(invites_view(invites@), space_id@, target@) is None,
        },
{
    let ghost iv = invites_view(invites@);
    let mut i: usize = 0;
    while i < invites.len()
        invariant
            iv == invites_view(invites@),
            i <= invites@.len(),
            forall|j: int| 0 <= j < i ==> !pending_for(iv[j], space_id@, target@),
        decreases invites@.len() - i,
    {
        let inv = &invites[i];
        if str_eq(inv.space_id.as_str(), space_id) && str_eq(inv.target_peer_id.as_str(), target)
            && inv.status == SpaceInviteStatus::Pending {
            proof {
                assert(iv[i as int] == inv@);
                lemma_first_pending_invite(iv, space_id@, target@, i as int);
            }
            return Some(i);
        }
        proof {
            assert(iv[i as int] == inv@);
        }
        i = i + 1;
    }
    proof {
        if exists|j: int| 0 <= j < iv.len() && #[trigger] pending_for(iv[j], space_id@, target@) {
            let j = choose|j: int| 0 <= j < iv.len() && #[trigger] pending_for(iv[j], space_id@, target@);
            assert(!pending_for(iv[j], space_id@, target@));
        }
    }
    None
}

/// The invites with those of `peer` in `space_id` marked accepted.
fn accept_invites(invites: &Vec<SpaceInviteRecord>, space_id: &str, peer: &str) -> (r: Vec<SpaceInviteRecord>)
    ensures
        invites_view(r@) == accept_invites_of(invites_view(invites@), space_id@, peer@),
{
    let ghost old_inv = invites_view(invites@);
    let mut out: Vec<SpaceInviteRecord> = Vec::new();
    let mut j: usize = 0;
    while j < invites.len()
        invariant
            old_inv == invites_view(invites@),
            j <= invites@.len(),
            out@.len() == j,
            forall|k: int| 0 <= k < j ==> (#[trigger] out@[k])@ == accept_invites_of(old_inv, space_id@, peer@)[k],
        decreases invites@.len() - j,
    {
        let mut inv = invites[j].clone();
        if str_eq(inv.space_id.as_str(), space_id) && str_eq(inv.target_peer_id.as_str(), peer) {
            inv.status = SpaceInviteStatus::Accepted;
        }
        out.push(inv);
        j = j + 1;
    }
    proof {
        assert(invites_view(out@) =~= accept_invites_of(old_inv, space_id@, peer@));
    }
    out
}

/// A change to one space's local copy.
enum SpaceEdit {
    Accept { local: String },
    Deactivate,
    Leave { local: String },
    Update { name: String, kind: SpaceKind, members: Vec<String> },
    AddMember { peer: String },
}

#[verifier::opaque]
spec fn edited(s: SpaceRecordView, e: SpaceEdit) -> SpaceRecordView {
    match e {
        SpaceEdit::Accept { local } => SpaceRecordView { members: members_with(s.members, local@), active: false, ..s },
        SpaceEdit::Deactivate => SpaceRecordView { active: false, ..s },
        SpaceEdit::Leave { local } => SpaceRecordView {
            active: false,
            addons: Map::empty(),
            members: members_without(s.members, local@),
            ..s
        },
        SpaceEdit::Update { name, kind, members } => SpaceRecordView { name: name@, kind, members: members.deep_view(), ..s },
        SpaceEdit::AddMember { peer } => SpaceRecordView { members: members_with(s.members, peer@), ..s },
    }
}

/// Applies `edit` to the space with id `space_id`.
#[verifier::rlimit(60)]
#[verifier::spinoff_prover]
fn edit_space(spaces: &mut SpaceStore, space_id: &str, edit: SpaceEdit) -> (r: Result<SpaceRecord, MembershipError>)
    ensures
        !space_exists(old(spaces)@, space_id@) ==> final(spaces)@ == old(spaces)@ && r is Err && unknown_space_error(r->Err_0, space_id@),
        space_exists(old(spaces)@, space_id@) ==> {
            let s = edited(space_with_id(old(spaces)@, space_id@), edit);
            &&& final(spaces)@ == replace_space(old(spaces)@, space_id@, s)
            &&& first_space_index(final(spaces)@, space_id@) == first_space_index(old(spaces)@, space_id@)
            &&& r is Ok && r->Ok_0@ == s
        },
{
    let i = match spaces.find_space(space_id) {
        Some(i) => i,
        None => {
            return Err(MembershipError::UnknownSpace { space_id: space_id.to_owned() });
        },
    };
    let ghost old_spaces = spaces@;
    let mut space = spaces.spaces.remove(i);
    let ghost before = space@;
    proof {
        assert(before == old_spaces[i as int]);
    }
    apply_edit(&mut space, edit);
    let response = space.clone();
    spaces.spaces.insert(i, space);
    proof {
        assert(spaces@ =~= old_spaces.update(i as int, response@));
        crate::spaces::lemma_first_space_index_update(old_spaces, space_id@, i as int, response@);
    }
    Ok(response)
}

/// Applies `edit` to one space.
fn apply_edit(space: &mut SpaceRecord, edit: SpaceEdit)
    ensures
        final(space)@ == edited(old(space)@, edit),
        final(space)@.space_id == old(space)@.space_id,
{
    proof {
        reveal(edited);
    }
    match edit {
        SpaceEdit::Accept { local } => {
            space.members = add_member(&space.members, local.as_str());
            space.active = false;
        },
        SpaceEdit::Deactivate => {
            space.active = false;
        },
        SpaceEdit::Leave { local } => {
            space.active = false;
            space.addons.clear();
            space.members = remove_member(&space.members, local.as_str());
        },
        SpaceEdit::Update { name, kind, members } => {
            space.name = name;
            space.kind = kind;
            space.members = members;
        },
        SpaceEdit::AddMember { peer } => {
            space.members = add_member(&space.members, peer.as_str());
        },
    }
}

impl SpaceMembershipStore {
    /// The checks before an invite: the target must be non-blank, this
    /// device must own the space, the space must exist and the target must
    /// not be a member. A pending invite for the same target is handed back;
    /// `None` means a new invite is needed.
    fn invite_precheck(
        &self,
        spaces: &SpaceStore,
        local_device_id: &str,
        space_id: &str,
        target_peer_id: &str,
    ) -> (r: Result<Option<SpaceInviteRecord>, MembershipError>)
        ensures
            ({
                let t = trim(target_peer_id@);
                let m = self@;
                if t.len() == 0 {
                    r matches Err(MembershipError::EmptyTargetPeer)
                } else if !owner_of(m, local_device_id@, space_id@) {
                    r is Err && owner_check_error(m, space_id@, r->Err_0)
                } else if !space_exists(spaces@, space_id@) {
                    r is Err && unknown_space_error(r->Err_0, space_id@)
                } else if space_with_id(spaces@, space_id@).members.contains(t) {
                    r matches Err(MembershipError::AlreadyMember)
                } else if first_pending_invite(m.invites, space_id@, t) is Some {
                    r matches Ok(Some(inv)) && inv@ == m.invites[first_pending_invite(m.invites, space_id@, t)->Some_0]
                } else {
                    r matches Ok(None)
                }
            }),
    {
        let target = trim_str(target_peer_id);
        if target.as_str().is_empty() {
            return Err(MembershipError::EmptyTargetPeer);
        }
        self.ensure_owner(local_device_id, space_id)?;
        let space = ensure_space_exists(spaces, space_id)?;
        if contains_str(&space.members, target.as_str()) {
            return Err(MembershipError::AlreadyMember);
        }
        match find_pending_invite(&self.invites, space_id, target.as_str()) {
            Some(i) => Ok(Some(self.invites[i].clone())),
            None => Ok(None),
        }
    }

    /// The owner invites a peer into a space under the invite id
    /// `invite_id`; see `invite_post`.
    pub fn create_invite_with_id(
        &mut self,
        spaces: &SpaceStore,
        local_device_id: &str,
        space_id: &str,
        target_peer_id: &str,
        invite_id: String,
    ) -> (r: Result<SpaceInviteRecord, MembershipError>)
        ensures
            invite_post(old(self)@, final(self)@, spaces@, local_device_id@, space_id@, target_peer_id@, invite_id@, r),
    {
        match self.invite_precheck(spaces, local_device_id, space_id, target_peer_id) {
            Err(e) => {
                return Err(e);
            },
            Ok(Some(inv)) => {
                return Ok(inv);
            },
            Ok(None) => {},
        }
        let target = trim_str(target_peer_id);
        let mut record = self.record_mut(space_id)?;
        bump(&mut record);
        let revision = record.revision;
        self.records.insert(space_id.to_owned(), record);
        let invite = SpaceInviteRecord {
            invite_id,
            space_id: space_id.to_owned(),
            target_peer_id: target,
            invited_by: local_device_id.to_owned(),
            revision,
            status: SpaceInviteStatus::Pending,
        };
        let ghost old_inv = self.invites@;
        self.invites.push(invite.clone());
        proof {
            assert(invites_view(self.invites@) =~= invites_view(old_inv).push(invite@));
        }
        Ok(invite)
    }

    /// The owner invites a peer into a space. The peer is not added to the
    /// space until it accepts; a pending invite for the same peer is reused.
    /// A new invite gets a fresh UUID as its id; when the random source
    /// fails, nothing changes.
    pub fn create_invite(
        &mut self,
        spaces: &SpaceStore,
        local_device_id: &str,
        space_id: &str,
        target_peer_id: &str,
    ) -> (r: Result<SpaceInviteRecord, MembershipError>)
        ensures
            !needs_new_invite(old(self)@, spaces@, local_device_id@, space_id@, target_peer_id@) ==> invite_post(
                old(self)@,
                final(self)@,
                spaces@,
                local_device_id@,
                space_id@,
                target_peer_id@,
                Seq::empty(),
                r,
            ),
            needs_new_invite(old(self)@, spaces@, local_device_id@, space_id@, target_peer_id@) ==> {
                ||| final(self)@ == old(self)@ && r matches Err(MembershipError::RandomUnavailable)
                ||| exists|g: Seq<char>|
                    is_uuid_v4_text(g) && #[trigger] invite_post(
                        old(self)@,
                        final(self)@,
                        spaces@,
                        local_device_id@,
                        space_id@,
                        target_peer_id@,
                        g,
                        r,
                    )
            },
    {
        match self.invite_precheck(spaces, local_device_id, space_id, target_peer_id) {
            Err(e) => Err(e),
            Ok(Some(inv)) => Ok(inv),
            Ok(None) => match new_uuid_v4() {
                Ok(id) => {
                    let ghost g = id@;
                    let r = self.create_invite_with_id(spaces, local_device_id, space_id, target_peer_id, id);
                    proof {
                        assert(invite_post(old(self)@, self@, spaces@, local_device_id@, space_id@, target_peer_id@, g, r));
                    }
                    r
                },
                Err(_) => Err(MembershipError::RandomUnavailable),
            },
        }
    }

    /// An invited device stores the space it was invited into, pending its
    /// acceptance; the owner is among the space's members.
    pub fn import_invite(
        &mut self,
        spaces: &mut SpaceStore,
        local_device_id: &str,
        invite: ImportedSpaceInvite,
    ) -> (r: Result<SpaceRecord, MembershipError>)
        ensures
            import_invite_post(
                old(self)@,
                old(spaces)@,
                local_device_id@,
                invite@,
                final(self)@,
                final(spaces)@,
                record_result_view(r),
            ),

    {
        if str_eq(invite.owner_device_id.as_str(), local_device_id) {
            return Err(MembershipError::OwnInvite);
        }
        if spaces.find_space(invite.space_id.as_str()).is_some() {
            return Err(MembershipError::SpaceExistsLocally { space_id: invite.space_id.clone() });
        }
        let members = add_member(&invite.members, invite.owner_device_id.as_str());
        let record = SpaceRecord {
            space_id: invite.space_id.clone(),
            name: invite.name.clone(),
            kind: invite.kind,
            active: false,
            members,
            addons: StrMap::new(),
        };
        let ghost old_spaces = spaces.spaces@;
        spaces.spaces.push(record.clone());
        proof {
            assert(crate::spaces::records_view(spaces.spaces@) =~= crate::spaces::records_view(old_spaces).push(record@));
        }
        self.records.insert(invite.space_id.clone(), SpaceMembershipRecord::joined_pending(&invite));
        Ok(record)
    }

    /// The invited device accepts: it becomes a member of its copy of the
    /// space, which stays inactive until the device turns it on.
    pub fn accept_invite(
        &mut self,
        spaces: &mut SpaceStore,
        local_device_id: &str,
        space_id: &str,
    ) -> (r: Result<SpaceRecord, MembershipError>)
        ensures
            ({
                let old_m = old(self)@;
                let rec = old_m.records[space_id@];
                if !old_m.records.contains_key(space_id@) {
                    final(self)@ == old_m && final(spaces)@ == old(spaces)@ && r is Err && no_membership_error(r->Err_0, space_id@)
                } else if rec.role != SpaceRole::Member {
                    final(self)@ == old_m && final(spaces)@ == old(spaces)@ && r matches Err(MembershipError::NotJoined)
                } else if rec.left {
                    final(self)@ == old_m && final(spaces)@ == old(spaces)@ && r matches Err(MembershipError::AlreadyLeft)
                } else if rec.invite_state is None {
                    final(self)@ == old_m && final(spaces)@ == old(spaces)@ && r matches Err(MembershipError::NoInviteState)
                } else if rec.invite_state->Some_0.status != SpaceInviteStatus::Pending {
                    final(self)@ == old_m && final(spaces)@ == old(spaces)@ && r matches Err(MembershipError::InviteNotPending)
                } else {
                    &&& final(self)@.records == old_m.records.insert(space_id@, accepted_record(rec))
                    &&& final(self)@.invites == old_m.invites
                    &&& if !space_exists(old(spaces)@, space_id@) {
                        final(spaces)@ == old(spaces)@ && r is Err && unknown_space_error(r->Err_0, space_id@)
                    } else {
                        let old_s = space_with_id(old(spaces)@, space_id@);
                        let s = SpaceRecordView { members: members_with(old_s.members, local_device_id@), active: false, ..old_s };
                        final(spaces)@ == replace_space(old(spaces)@, space_id@, s) && r is Ok && r->Ok_0@ == s
                    }
                }
            }),
    {
        let mut record = self.record_mut(space_id)?;
        if record.role != SpaceRole::Member {
            return Err(MembershipError::NotJoined);
        }
        if record.left {
            return Err(MembershipError::AlreadyLeft);
        }
        let mut invite = match &record.invite_state {
            Some(s) => s.clone(),
            None => {
                return Err(MembershipError::NoInviteState);
            },
        };
        if invite.status != SpaceInviteStatus::Pending {
            return Err(MembershipError::InviteNotPending);
        }
        invite.status = SpaceInviteStatus::Accepted;
        record.invite_state = Some(invite);
        self.records.insert(space_id.to_owned(), record);
        proof {
            reveal(edited);
        }
        edit_space(spaces, space_id, SpaceEdit::Accept { local: local_device_id.to_owned() })
    }

    /// The invited device declines: its copy of the space is marked left and
    /// inactive.
    pub fn decline_invite(&mut self, spaces: &mut SpaceStore, space_id: &str) -> (r: Result<SpaceRecord, MembershipError>)
        ensures
            ({
                let old_m = old(self)@;
                let rec = old_m.records[space_id@];
                if !old_m.records.contains_key(space_id@) {
                    final(self)@ == old_m && final(spaces)@ == old(spaces)@ && r is Err && no_membership_error(r->Err_0, space_id@)
                } else if rec.role != SpaceRole::Member {
                    final(self)@ == old_m && final(spaces)@ == old(spaces)@ && r matches Err(MembershipError::NotJoined)
                } else {
                    &&& final(self)@.records == old_m.records.insert(space_id@, declined_record(rec))
                    &&& final(self)@.invites == old_m.invites
                    &&& if !space_exists(old(spaces)@, space_id@) {
                        final(spaces)@ == old(spaces)@ && r is Err && unknown_space_error(r->Err_0, space_id@)
                    } else {
                        let s = SpaceRecordView { active: false, ..space_with_id(old(spaces)@, space_id@) };
                        final(spaces)@ == replace_space(old(spaces)@, space_id@, s) && r is Ok && r->Ok_0@ == s
                    }
                }
            }),
    {
        let mut record = self.record_mut(space_id)?;
        if record.role != SpaceRole::Member {
            return Err(MembershipError::NotJoined);
        }
        record.invite_state = match &record.invite_state {
            Some(s) => {
                let mut s2 = s.clone();
                s2.status = SpaceInviteStatus::Declined;
                Some(s2)
            },
            None => None,
        };
        record.left = true;
        self.records.insert(space_id.to_owned(), record);
        proof {
            reveal(edited);
        }
        edit_space(spaces, space_id, SpaceEdit::Deactivate)
    }

    /// The owner learns that a peer accepted: the peer's invites are marked
    /// accepted, the peer joins the space and the revision moves on. Returns
    /// the snapshot to send to the members.
    pub fn record_member_acceptance(
        &mut self,
        spaces: &mut SpaceStore,
        local_device_id: &str,
        space_id: &str,
        peer_id: &str,
    ) -> (r: Result<SpaceSyncUpdate, MembershipError>)
        ensures
            acceptance_post(
                old(self)@,
                old(spaces)@,
                local_device_id@,
                space_id@,
                peer_id@,
                final(self)@,
                final(spaces)@,
                update_result_view(r),
            ),
    {
        let peer = trim_str(peer_id);
        if peer.as_str().is_empty() {
            return Err(MembershipError::EmptyPeerId);
        }
        self.ensure_owner(local_device_id, space_id)?;
        let invites = accept_invites(&self.invites, space_id, peer.as_str());
        self.invites = invites;
        proof {
            reveal(edited);
        }
        let ghost old_spaces = spaces@;
        let _edited = edit_space(spaces, space_id, SpaceEdit::AddMember { peer })?;
        let mut record = self.record_mut(space_id)?;
        bump(&mut record);
        self.records.insert(space_id.to_owned(), record);
        proof {
            let i = first_space_index(old_spaces, space_id@)->Some_0;
            crate::spaces::lemma_first_space_index_facts(old_spaces, space_id@);
            assert(spaces@[i] == _edited@);
            assert(space_with_id(spaces@, space_id@) == _edited@);
            assert(owner_of(self@, local_device_id@, space_id@));
        }
        self.sync_update(spaces, local_device_id, space_id)
    }

    /// A member leaves a space: its record is marked left and loses its keys,
    /// and its copy of the space is switched off, loses its add-ons and drops
    /// this device from the members. The owner cannot leave.
    pub fn leave_space(
        &mut self,
        spaces: &mut SpaceStore,
        local_device_id: &str,
        space_id: &str,
    ) -> (r: Result<SpaceRecord, MembershipError>)
        ensures
            ({
                let old_m = old(self)@;
                if owner_of(old_m, local_device_id@, space_id@) {
                    final(self)@ == old_m && final(spaces)@ == old(spaces)@ && r matches Err(MembershipError::OwnerCannotLeave)
                } else if !old_m.records.contains_key(space_id@) {
                    final(self)@ == old_m && final(spaces)@ == old(spaces)@ && r is Err && no_membership_error(r->Err_0, space_id@)
                } else {
                    &&& final(self)@.records == old_m.records.insert(space_id@, left_record(old_m.records[space_id@]))
                    &&& final(self)@.invites == old_m.invites
                    &&& if !space_exists(old(spaces)@, space_id@) {
                        final(spaces)@ == old(spaces)@ && r is Err && unknown_space_error(r->Err_0, space_id@)
                    } else {
                        let old_s = space_with_id(old(spaces)@, space_id@);
                        let s = SpaceRecordView {
                            active: false,
                            addons: Map::empty(),
                            members: members_without(old_s.members, local_device_id@),
                            ..old_s
                        };
                        final(spaces)@ == replace_space(old(spaces)@, space_id@, s) && r is Ok && r->Ok_0@ == s
                    }
                }
            }),
    {
        match self.records.get(space_id) {
            Some(rec) => {
                if rec.is_owner_for(local_device_id) {
                    return Err(MembershipError::OwnerCannotLeave);
                }
            },
            None => {},
        }
        let mut record = self.record_mut(space_id)?;
        record.left = true;
        record.key_epoch = 0;
        record.invite_state = None;
        self.records.insert(space_id.to_owned(), record);
        proof {
            reveal(edited);
        }
        edit_space(spaces, space_id, SpaceEdit::Leave { local: local_device_id.to_owned() })
    }

    /// A member applies the owner's snapshot of a space if it is newer than
    /// what the member has; a space the member left ignores it.
    pub fn apply_owner_update(
        &mut self,
        spaces: &mut SpaceStore,
        update: SpaceSyncUpdate,
    ) -> (r: Result<Option<SpaceRecord>, MembershipError>)
        ensures
            owner_update_post(old(self)@, old(spaces)@, update@, final(self)@, final(spaces)@, option_record_result_view(r)),
    {
        let mut record = self.record_mut(update.space_id.as_str())?;
        if record.role != SpaceRole::Member {
            return Err(MembershipError::NotJoined);
        }
        if !str_eq(record.owner_device_id.as_str(), update.owner_device_id.as_str()) {
            return Err(MembershipError::OwnerMismatch);
        }
        if record.left || update.revision <= record.revision {
            return Ok(None);
        }
        record.revision = update.revision;
        record.owner_enabled = update.owner_enabled;
        record.key_epoch = update.key_epoch;
        self.records.insert(update.space_id.clone(), record);
        let id = update.space_id;
        proof {
            reveal(edited);
        }
        let response = edit_space(
            spaces,
            id.as_str(),
            SpaceEdit::Update { name: update.name, kind: update.kind, members: update.members },
        )?;
        Ok(Some(response))
    }

    /// The spaces this device was invited into and has not yet answered.
    pub fn pending_joined_invites(&self, spaces: &SpaceStore) -> (r: Vec<SpaceRecord>)
        ensures
            crate::spaces::records_view(r@) == spaces@.filter(|s: SpaceRecordView| is_pending_joined(self@, s)),
    {
        let mut out: Vec<SpaceRecord> = Vec::new();
        let ghost sv = spaces@;
        let mut i: usize = 0;
        while i < spaces.spaces.len()
            invariant
                sv == spaces@,
                i <= sv.len(),
                sv.len() == spaces.spaces@.len(),
                crate::spaces::records_view(out@) == sv.take(i as int).filter(|s: SpaceRecordView| is_pending_joined(self@, s)),
            decreases sv.len() - i,
        {
            let space = &spaces.spaces[i];
            proof {
                assert(sv.take(i + 1) == sv.take(i as int).push(space@));
                lemma_filter_push(sv.take(i as int), |s: SpaceRecordView| is_pending_joined(self@, s), space@);
            }
            let pending = match self.records.get(space.space_id.as_str()) {
                Some(rec) => match &rec.invite_state {
                    Some(st) => st.status == SpaceInviteStatus::Pending,
                    None => false,
                },
                None => false,
            };
            if pending {
                let ghost before = crate::spaces::records_view(out@);
                let c = space.clone();
                out.push(c);
                proof {
                    assert(crate::spaces::records_view(out@) =~= before.push(space@));
                }
            }
            i = i + 1;
        }
        proof {
            assert(sv.take(sv.len() as int) == sv);
        }
        out
    }
}


/// An invite with its ids trimmed.
pub open spec fn trim_invite(i: SpaceInviteRecordView) -> SpaceInviteRecordView {
    SpaceInviteRecordView {
        invite_id: trim(i.invite_id),
        space_id: trim(i.space_id),
        target_peer_id: trim(i.target_peer_id),
        invited_by: trim(i.invited_by),
        ..i
    }
}

/// An invite repaired: ids trimmed, revision at least 1.
pub open spec fn fix_invite(i: SpaceInviteRecordView) -> SpaceInviteRecordView {
    SpaceInviteRecordView { revision: max1(i.revision), ..trim_invite(i) }
}

pub open spec fn fixed_invites(s: Seq<SpaceInviteRecordView>) -> Seq<SpaceInviteRecordView> {
    s.map_values(|i: SpaceInviteRecordView| fix_invite(i))
}

/// The error a blank id of an invite gives, checked in field order.
pub open spec fn invite_error(i: SpaceInviteRecordView) -> Option<MembershipError> {
    let t = trim_invite(i);
    if t.invite_id.len() == 0 {
        Some(MembershipError::EmptyInviteId)
    } else if t.space_id.len() == 0 {
        Some(MembershipError::EmptyInviteSpaceId)
    } else if t.target_peer_id.len() == 0 {
        Some(MembershipError::EmptyInviteTarget)
    } else if t.invited_by.len() == 0 {
        Some(MembershipError::EmptyInviteSender)
    } else {
        None
    }
}

/// The index of the first invite with a blank id.
pub open spec fn first_bad_invite(s: Seq<SpaceInviteRecordView>) -> Option<int>
    decreases s.len(),
{
    if s.len() == 0 {
        None
    } else {
        match first_bad_invite(s.drop_last()) {
            Some(k) => Some(k),
            None => if invite_error(s.last()) is Some {
                Some(s.len() - 1)
            } else {
                None
            },
        }
    }
}

proof fn lemma_first_bad_invite_facts(s: Seq<SpaceInviteRecordView>)
    ensures
        first_bad_invite(s) matches Some(k) ==> 0 <= k < s.len() && invite_error(s[k]) is Some,
    decreases s.len(),
{
    if s.len() > 0 {
        lemma_first_bad_invite_facts(s.drop_last());
    }
}

proof fn lemma_first_bad_invite_prefix(s: Seq<SpaceInviteRecordView>, n: int)
    requires
        0 <= n <= s.len(),
        first_bad_invite(s.take(n)) is Some,
    ensures
        first_bad_invite(s) == first_bad_invite(s.take(n)),
    decreases s.len() - n,
{
    if n < s.len() {
        assert(s.take(n + 1).drop_last() == s.take(n));
        lemma_first_bad_invite_prefix(s, n + 1);
    } else {
        assert(s.take(n) == s);
    }
}

/// Invites are ordered by space, then target peer, then invite id.
pub open spec fn by_space_target_id() -> spec_fn(SpaceInviteRecordView) -> Seq<Seq<char>> {
    |i: SpaceInviteRecordView| seq![i.space_id, i.target_peer_id, i.invite_id]
}

/// Drops each invite whose id equals that of the last invite kept.
pub open spec fn dedup_invites(s: Seq<SpaceInviteRecordView>) -> Seq<SpaceInviteRecordView>
    decreases s.len(),
{
    if s.len() == 0 {
        s
    } else {
        let d = dedup_invites(s.drop_last());
        if d.len() > 0 && d.last().invite_id == s.last().invite_id {
            d
        } else {
            d.push(s.last())
        }
    }
}

/// The invites after repair, or as far as repair got before a blank id.
pub open spec fn invites_after_repair(s: Seq<SpaceInviteRecordView>) -> Seq<SpaceInviteRecordView> {
    match first_bad_invite(s) {
        Some(k) => fixed_invites(s.take(k)).push(trim_invite(s[k])) + s.skip(k + 1),
        None => dedup_invites(crate::order::sort_by_key(fixed_invites(s), by_space_target_id())),
    }
}

/// Whether invite `a` comes before invite `b`.
fn invite_before(a: &SpaceInviteRecord, b: &SpaceInviteRecord) -> (r: bool)
    ensures
        r == crate::order::keys_lt(by_space_target_id()(a@), by_space_target_id()(b@)),
{
    proof {
        crate::order::lemma_keys_lt_triple(
            a.space_id@,
            a.target_peer_id@,
            a.invite_id@,
            b.space_id@,
            b.target_peer_id@,
            b.invite_id@,
        );
    }
    if !str_eq(a.space_id.as_str(), b.space_id.as_str()) {
        crate::text::string_lt(&a.space_id, &b.space_id)
    } else if !str_eq(a.target_peer_id.as_str(), b.target_peer_id.as_str()) {
        crate::text::string_lt(&a.target_peer_id, &b.target_peer_id)
    } else {
        crate::text::string_lt(&a.invite_id, &b.invite_id)
    }
}

/// The invites sorted by space, target and id; equal keys keep their order.
fn sort_invites(invites: Vec<SpaceInviteRecord>) -> (r: Vec<SpaceInviteRecord>)
    ensures
        invites_view(r@) == crate::order::sort_by_key(invites_view(invites@), by_space_target_id()),
{
    let ghost key = by_space_target_id();
    let ghost src = invites_view(invites@);
    let mut out: Vec<SpaceInviteRecord> = Vec::new();
    let mut i: usize = 0;
    while i < invites.len()
        invariant
            src == invites_view(invites@),
            key == by_space_target_id(),
            i <= invites@.len(),
            invites_view(out@) == crate::order::sort_by_key(src.take(i as int), key),
        decreases invites@.len() - i,
    {
        let x = invites[i].clone();
        let mut p: usize = out.len();
        while p > 0 && invite_before(&x, &out[p - 1])
            invariant
                p <= out@.len(),
                key == by_space_target_id(),
                forall|j: int| p <= j < out@.len() ==> crate::order::keys_lt(key(x@), #[trigger] key(out@[j]@)),
            decreases p,
        {
            p = p - 1;
        }
        proof {
            let o = invites_view(out@);
            assert forall|j: int| p <= j < o.len() implies crate::order::keys_lt(key(x@), #[trigger] key(o[j])) by {
                assert(o[j] == out@[j]@);
            }
            if p > 0 {
                assert(o[p - 1] == out@[p - 1]@);
            }
            crate::order::lemma_insert_by_key_at(o, x@, key, p as int);
            assert(src.take(i + 1).drop_last() == src.take(i as int));
            assert(src.take(i + 1).last() == x@);
        }
        let ghost before = invites_view(out@);
        out.insert(p, x);
        proof {
            assert(invites_view(out@) =~= before.insert(p as int, invites@[i as int]@));
        }
        i = i + 1;
    }
    proof {
        assert(src.take(invites@.len() as int) == src);
    }
    out
}

/// Drops each invite whose id equals that of the last one kept.
fn dedup_invite_ids(invites: Vec<SpaceInviteRecord>) -> (r: Vec<SpaceInviteRecord>)
    ensures
        invites_view(r@) == dedup_invites(invites_view(invites@)),
{
    let ghost src = invites_view(invites@);
    let mut out: Vec<SpaceInviteRecord> = Vec::new();
    let mut i: usize = 0;
    while i < invites.len()
        invariant
            src == invites_view(invites@),
            i <= invites@.len(),
            invites_view(out@) == dedup_invites(src.take(i as int)),
        decreases invites@.len() - i,
    {
        let x = &invites[i];
        proof {
            assert(src.take(i + 1).drop_last() == src.take(i as int));
            assert(src.take(i + 1).last() == x@);
        }
        let n = out.len();
        let same = n > 0 && str_eq(out[n - 1].invite_id.as_str(), x.invite_id.as_str());
        if !same {
            let ghost before = invites_view(out@);
            out.push(x.clone());
            proof {
                assert(invites_view(out@) =~= before.push(x@));
            }
        } else {
            proof {
                assert(invites_view(out@).last() == out@[n - 1]@);
            }
        }
        i = i + 1;
    }
    proof {
        assert(src.take(invites@.len() as int) == src);
    }
    out
}

/// A copy of an invite with its ids trimmed.
fn trimmed_invite(i: &SpaceInviteRecord) -> (r: SpaceInviteRecord)
    ensures
        r@ == trim_invite(i@),
{
    SpaceInviteRecord {
        invite_id: trim_str(i.invite_id.as_str()),
        space_id: trim_str(i.space_id.as_str()),
        target_peer_id: trim_str(i.target_peer_id.as_str()),
        invited_by: trim_str(i.invited_by.as_str()),
        revision: i.revision,
        status: i.status,
    }
}

/// Trims every invite and checks that none has a blank id; then sorts them
/// by space, target and id, and drops repeats of an invite id. At the first
/// invite with a blank id it stops with that invite trimmed.
fn normalize_invites(invites: &mut Vec<SpaceInviteRecord>) -> (r: Result<(), MembershipError>)
    ensures
        invites_view(final(invites)@) == invites_after_repair(invites_view(old(invites)@)),
        match first_bad_invite(invites_view(old(invites)@)) {
            Some(k) => r == Err::<(), MembershipError>(invite_error(invites_view(old(invites)@)[k])->Some_0),
            None => r is Ok,
        },
{
    let (v, res) = repaired_invite_list(invites);
    *invites = v;
    res
}

/// The invites as `normalize_invites` leaves them, and its result.
fn repaired_invite_list(invites: &Vec<SpaceInviteRecord>) -> (r: (Vec<SpaceInviteRecord>, Result<(), MembershipError>))
    ensures
        invites_view(r.0@) == invites_after_repair(invites_view(invites@)),
        match first_bad_invite(invites_view(invites@)) {
            Some(k) => r.1 == Err::<(), MembershipError>(invite_error(invites_view(invites@)[k])->Some_0),
            None => r.1 is Ok,
        },
{
    let ghost src = invites_view(invites@);
    let mut fixed: Vec<SpaceInviteRecord> = Vec::new();
    let mut i: usize = 0;
    while i < invites.len()
        invariant
            src == invites_view(invites@),
            i <= invites@.len(),
            invites_view(fixed@) == fixed_invites(src.take(i as int)),
            first_bad_invite(src.take(i as int)) is None,
        decreases invites@.len() - i,
    {
        let mut t = trimmed_invite(&invites[i]);
        proof {
            assert(src[i as int] == invites@[i as int]@);
            assert(src.take(i + 1).drop_last() == src.take(i as int));
            assert(src.take(i + 1).last() == src[i as int]);
        }
        let err = if t.invite_id.as_str().is_empty() {
            Some(MembershipError::EmptyInviteId)
        } else if t.space_id.as_str().is_empty() {
            Some(MembershipError::EmptyInviteSpaceId)
        } else if t.target_peer_id.as_str().is_empty() {
            Some(MembershipError::EmptyInviteTarget)
        } else if t.invited_by.as_str().is_empty() {
            Some(MembershipError::EmptyInviteSender)
        } else {
            None
        };
        match err {
            Some(e) => {
                proof {
                    assert(first_bad_invite(src.take(i + 1)) == Some(i as int));
                    lemma_first_bad_invite_prefix(src, i + 1);
                }
                let ghost before = invites_view(fixed@);
                fixed.push(t);
                let mut j: usize = i + 1;
                proof {
                    assert(invites_view(fixed@) =~= before.push(trim_invite(src[i as int])) + src.skip(i + 1).take(0));
                }
                while j < invites.len()
                    invariant
                        src == invites_view(invites@),
                        i < j <= invites@.len(),
                        invites_view(fixed@) == before.push(trim_invite(src[i as int])) + src.skip(i + 1).take(
                            j - i - 1,
                        ),
                    decreases invites@.len() - j,
                {
                    let ghost b2 = invites_view(fixed@);
                    fixed.push(invites[j].clone());
                    proof {
                        assert(src.skip(i + 1).take(j - i) =~= src.skip(i + 1).take(j - i - 1).push(src[j as int]));
                        assert(invites_view(fixed@) =~= b2.push(src[j as int]));
                    }
                    j = j + 1;
                }
                proof {
                    assert(src.skip(i + 1).take(src.len() - i - 1) == src.skip(i + 1));
                }
                return (fixed, Err(e));
            },
            None => {},
        }
        t.revision = if t.revision == 0 {
            1
        } else {
            t.revision
        };
        let ghost before = invites_view(fixed@);
        fixed.push(t);
        proof {
            assert(invites_view(fixed@) =~= before.push(fix_invite(src[i as int])));
            assert(fixed_invites(src.take(i + 1)) =~= fixed_invites(src.take(i as int)).push(fix_invite(src[i as int])));
        }
        i = i + 1;
    }
    proof {
        assert(src.take(invites@.len() as int) == src);
    }
    let sorted = sort_invites(fixed);
    (dedup_invite_ids(sorted), Ok(()))
}

/// A membership record repaired: ids trimmed, revision at least 1, a key
/// epoch unless the space was left, and no invite state once left.
pub open spec fn repair_record(r: MembershipRecordView) -> MembershipRecordView {
    MembershipRecordView {
        space_id: trim(r.space_id),
        owner_device_id: trim(r.owner_device_id),
        revision: max1(r.revision),
        key_epoch: if r.key_epoch == 0 && !r.left {
            1
        } else {
            r.key_epoch
        },
        invite_state: if r.left {
            None
        } else {
            r.invite_state
        },
        ..r
    }
}

/// The records of known spaces, repaired.
pub open spec fn repaired_records(
    records: Map<Seq<char>, MembershipRecordView>,
    spaces: Seq<SpaceRecordView>,
) -> Map<Seq<char>, MembershipRecordView> {
    Map::new(
        |k: Seq<char>| records.contains_key(k) && space_exists(spaces, k),
        |k: Seq<char>| repair_record(records[k]),
    )
}

/// The space ids of the records that were left.
pub open spec fn left_space_ids(records: Map<Seq<char>, MembershipRecordView>) -> Set<Seq<char>> {
    Set::new(|t: Seq<char>| exists|k: Seq<char>| #[trigger] records.contains_key(k) && records[k].left && records[k].space_id == t)
}

/// The spaces with the first space of each id in `ids` switched off.
pub open spec fn deactivate(spaces: Seq<SpaceRecordView>, ids: Set<Seq<char>>) -> Seq<SpaceRecordView> {
    spaces.map(
        |i: int, s: SpaceRecordView|
            if ids.contains(s.space_id) && first_space_index(spaces, s.space_id) == Some(i) {
                SpaceRecordView { active: false, ..s }
            } else {
                s
            },
    )
}

/// The invites of known spaces.
pub open spec fn known_invites(s: Seq<SpaceInviteRecordView>, spaces: Seq<SpaceRecordView>) -> Seq<SpaceInviteRecordView> {
    s.filter(|i: SpaceInviteRecordView| space_exists(spaces, i.space_id))
}

/// Repairs the records: keeps those of the spaces in `spaces`, repaired.
fn repair_records(records: &StrMap<SpaceMembershipRecord>, spaces: &SpaceStore) -> (r: StrMap<SpaceMembershipRecord>)
    ensures
        r@ == repaired_records(records@, spaces@),
{
    records.key_facts();
    let ghost ks = records.key_seq();
    let mut out: StrMap<SpaceMembershipRecord> = StrMap::new();
    let mut i: usize = 0;
    while i < records.len()
        invariant
            ks == records.key_seq(),
            ks.no_duplicates(),
            ks.to_set() == records@.dom(),
            ks.len() == records@.dom().len(),
            forall|j: int| 0 <= j < ks.len() ==> records@[#[trigger] ks[j]] == records.entry_seq()[j].value@,
            i <= ks.len(),
            out@ == Map::new(
                |k: Seq<char>| ks.take(i as int).contains(k) && space_exists(spaces@, k),
                |k: Seq<char>| repair_record(records@[k]),
            ),
        decreases ks.len() - i,
    {
        let k = records.key_at(i);
        let v = records.value_at(i);
        proof {
            assert(ks.take(i + 1) == ks.take(i as int).push(k@));
            assert forall|x: Seq<char>| #[trigger] ks.take(i + 1).contains(x) <==> (ks.take(i as int).contains(x) || x == k@) by {
                if ks.take(i + 1).contains(x) {
                    let j = choose|j: int| 0 <= j < i + 1 && #[trigger] ks.take(i + 1)[j] == x;
                    if j < i {
                        assert(ks.take(i as int)[j] == x);
                    }
                }
                if ks.take(i as int).contains(x) {
                    let j = choose|j: int| 0 <= j < i && #[trigger] ks.take(i as int)[j] == x;
                    assert(ks.take(i + 1)[j] == x);
                }
                if x == k@ {
                    assert(ks.take(i + 1)[i as int] == x);
                }
            }
            assert(v@ == records@[k@]);
        }
        if spaces.find_space(k.as_str()).is_some() {
            let mut rec = v.clone();
            rec.space_id = trim_str(rec.space_id.as_str());
            rec.owner_device_id = trim_str(rec.owner_device_id.as_str());
            if rec.revision == 0 {
                rec.revision = 1;
            }
            if rec.key_epoch == 0 && !rec.left {
                rec.key_epoch = 1;
            }
            if rec.left {
                rec.invite_state = None;
            }
            let ghost before = out@;
            out.insert(k.clone(), rec);
            proof {
                assert(out@ =~= Map::new(
                    |x: Seq<char>| ks.take(i + 1).contains(x) && space_exists(spaces@, x),
                    |x: Seq<char>| repair_record(records@[x]),
                ));
            }
        } else {
            proof {
                assert(out@ =~= Map::new(
                    |x: Seq<char>| ks.take(i + 1).contains(x) && space_exists(spaces@, x),
                    |x: Seq<char>| repair_record(records@[x]),
                ));
            }
        }
        i = i + 1;
    }
    proof {
        assert(ks.take(ks.len() as int) == ks);
        assert(out@ =~= repaired_records(records@, spaces@));
    }
    out
}


/// The space ids of the left records among `vals`.
pub open spec fn left_ids_of(vals: Seq<MembershipRecordView>) -> Set<Seq<char>> {
    Set::new(|t: Seq<char>| exists|i: int| 0 <= i < vals.len() && #[trigger] vals[i].left && vals[i].space_id == t)
}

proof fn lemma_left_ids_push(vals: Seq<MembershipRecordView>, v: MembershipRecordView)
    ensures
        left_ids_of(vals.push(v)) == if v.left {
            left_ids_of(vals).insert(v.space_id)
        } else {
            left_ids_of(vals)
        },
{
    let t = vals.push(v);
    let rhs = if v.left {
        left_ids_of(vals).insert(v.space_id)
    } else {
        left_ids_of(vals)
    };
    assert forall|x: Seq<char>| #[trigger] left_ids_of(t).contains(x) <==> rhs.contains(x) by {
        if left_ids_of(t).contains(x) {
            let i = choose|i: int| 0 <= i < t.len() && #[trigger] t[i].left && t[i].space_id == x;
            if i < vals.len() {
                assert(vals[i] == t[i]);
            }
        }
        if left_ids_of(vals).contains(x) {
            let i = choose|i: int| 0 <= i < vals.len() && #[trigger] vals[i].left && vals[i].space_id == x;
            assert(t[i] == vals[i]);
        }
        if v.left && x == v.space_id {
            assert(t[vals.len() as int] == v);
        }
    }
    assert(left_ids_of(t) =~= rhs);
}

/// Switching off the first space of one more id.
proof fn lemma_deactivate_insert(mid: Seq<SpaceRecordView>, ids: Set<Seq<char>>, t: Seq<char>)
    ensures
        deactivate(mid, ids.insert(t)) == match first_space_index(mid, t) {
            Some(i) => deactivate(mid, ids).update(i, SpaceRecordView { active: false, ..deactivate(mid, ids)[i] }),
            None => deactivate(mid, ids),
        },
{
    crate::spaces::lemma_first_space_index_facts(mid, t);
    let a = deactivate(mid, ids.insert(t));
    let b = deactivate(mid, ids);
    match first_space_index(mid, t) {
        Some(i) => {
            let c = b.update(i, SpaceRecordView { active: false, ..b[i] });
            assert forall|j: int| 0 <= j < a.len() implies a[j] == c[j] by {
                if j != i {
                    if ids.insert(t).contains(mid[j].space_id) && first_space_index(mid, mid[j].space_id) == Some(j) {
                        if mid[j].space_id == t {
                            assert(false);
                        }
                    }
                }
            }
            assert(a =~= c);
        },
        None => {
            assert forall|j: int| 0 <= j < a.len() implies a[j] == b[j] by {
                if mid[j].space_id == t {
                    assert(false);
                }
            }
            assert(a =~= b);
        },
    }
}

/// Switches off the first space of each left record's space id.
fn deactivate_left_spaces(spaces: &mut SpaceStore, records: &StrMap<SpaceMembershipRecord>)
    ensures
        final(spaces)@ == deactivate(old(spaces)@, left_space_ids(records@)),
{
    records.key_facts();
    let ghost mid = spaces@;
    let ghost ks = records.key_seq();
    let ghost vals = records.entry_seq().map_values(|e: crate::strmap::StrEntry<SpaceMembershipRecord>| e.value@);
    let mut j: usize = 0;
    proof {
        assert(left_ids_of(vals.take(0)) =~= Set::<Seq<char>>::empty());
        assert(deactivate(mid, Set::<Seq<char>>::empty()) =~= mid);
    }
    while j < records.len()
        invariant
            ks == records.key_seq(),
            vals == records.entry_seq().map_values(|e: crate::strmap::StrEntry<SpaceMembershipRecord>| e.value@),
            vals.len() == ks.len(),
            j <= ks.len(),
            spaces@ == deactivate(mid, left_ids_of(vals.take(j as int))),
        decreases ks.len() - j,
    {
        let rec = records.value_at(j);
        proof {
            assert(vals[j as int] == rec@);
            assert(vals.take(j + 1) == vals.take(j as int).push(rec@));
            lemma_left_ids_push(vals.take(j as int), rec@);
        }
        if rec.left {
            let ghost cur = spaces@;
            proof {
                lemma_deactivate_insert(mid, left_ids_of(vals.take(j as int)), rec@.space_id);
                crate::spaces::lemma_first_space_index_same_ids(cur, mid, rec@.space_id);
            }
            match spaces.find_space(rec.space_id.as_str()) {
                Some(i) => {
                    let mut s = spaces.spaces.remove(i);
                    s.active = false;
                    spaces.spaces.insert(i, s);
                    proof {
                        assert(spaces@ =~= cur.update(i as int, SpaceRecordView { active: false, ..cur[i as int] }));
                    }
                },
                None => {},
            }
        }
        j = j + 1;
    }
    proof {
        assert(vals.take(ks.len() as int) == vals);
        assert(left_ids_of(vals) =~= left_space_ids(records@)) by {
            assert forall|t: Seq<char>| left_ids_of(vals).contains(t) <==> #[trigger] left_space_ids(records@).contains(t) by {
                if left_ids_of(vals).contains(t) {
                    let i = choose|i: int| 0 <= i < vals.len() && #[trigger] vals[i].left && vals[i].space_id == t;
                    assert(records@[ks[i]] == records.entry_seq()[i].value@);
                    assert(ks.to_set().contains(ks[i]));
                    assert(records@.contains_key(ks[i]));
                }
                if left_space_ids(records@).contains(t) {
                    let k = choose|k: Seq<char>| #[trigger] records@.contains_key(k) && records@[k].left && records@[k].space_id == t;
                    assert(ks.to_set().contains(k));
                    let i = choose|i: int| 0 <= i < ks.len() && ks[i] == k;
                    assert(records@[ks[i]] == records.entry_seq()[i].value@);
                    assert(vals[i].left && vals[i].space_id == t);
                }
            }
        }
    }
}


/// The invites whose space is in `spaces`, in order.
fn keep_known_invites(invites: &Vec<SpaceInviteRecord>, spaces: &SpaceStore) -> (r: Vec<SpaceInviteRecord>)
    ensures
        invites_view(r@) == known_invites(invites_view(invites@), spaces@),
{
    let ghost src = invites_view(invites@);
    let mut out: Vec<SpaceInviteRecord> = Vec::new();
    let mut i: usize = 0;
    while i < invites.len()
        invariant
            src == invites_view(invites@),
            i <= invites@.len(),
            invites_view(out@) == known_invites(src.take(i as int), spaces@),
        decreases invites@.len() - i,
    {
        let inv = &invites[i];
        proof {
            assert(src.take(i + 1) == src.take(i as int).push(inv@));
            lemma_filter_push(src.take(i as int), |x: SpaceInviteRecordView| space_exists(spaces@, x.space_id), inv@);
        }
        if spaces.find_space(inv.space_id.as_str()).is_some() {
            let ghost before = invites_view(out@);
            out.push(inv.clone());
            proof {
                assert(invites_view(out@) =~= before.push(inv@));
            }
        }
        i = i + 1;
    }
    proof {
        assert(src.take(invites@.len() as int) == src);
    }
    out
}

impl SpaceMembershipStore {
    /// Repairs the spaces, then the membership: records of unknown spaces
    /// are dropped and the rest repaired, a left space is switched off, and
    /// the invites are repaired and those of unknown spaces dropped. Stops at
    /// the first error.
    /// It succeeds exactly when the spaces are valid and no invite has a
    /// blank id, and then the spaces and the membership are in normal form
    /// (see `lemma_membership_repair_outcome`).
    pub fn validate_and_repair(&mut self, spaces: &mut SpaceStore) -> (r: Result<(), MembershipError>)
        ensures
            membership_repair_post(old(self)@, old(spaces)@, final(self)@, final(spaces)@, r),
            r is Ok <==> crate::spaces::store_valid(old(spaces)@) && forall|i: int|
                0 <= i < old(self)@.invites.len() ==> (#[trigger] invite_error(old(self)@.invites[i])) is None,
            r is Ok ==> membership_normal(final(self)@, final(spaces)@),
    {
        let r = self.repair(spaces);
        proof {
            lemma_membership_repair_outcome(old(self)@, old(spaces)@, self@, spaces@, r);
        }
        r
    }

    /// The repair itself; see `membership_repair_post`.
    fn repair(&mut self, spaces: &mut SpaceStore) -> (r: Result<(), MembershipError>)
        ensures
            membership_repair_post(old(self)@, old(spaces)@, final(self)@, final(spaces)@, r),
    {
        let ghost old_spaces = spaces@;
        let ghost old_self = self@;
        let res = spaces.validate_and_repair();
        match res {
            Ok(()) => {},
            Err(e) => {
                proof {
                    assert(crate::spaces::store_repair(old_spaces, spaces@, Err(e)));
                }
                return Err(MembershipError::Space(e));
            },
        }
        let ghost mid = spaces@;
        proof {
            assert(crate::spaces::store_repair(old_spaces, mid, Ok(())));
        }
        let records = repair_records(&self.records, spaces);
        deactivate_left_spaces(spaces, &records);
        self.records = records;
        let ghost after = spaces@;
        proof {
            assert forall|i: int| 0 <= i < after.len() implies #[trigger] after[i].space_id == mid[i].space_id by {}
        }
        let ghost inv0 = invites_view(self.invites@);
        proof {
            assert(inv0 == old_self.invites);
        }
        let nres = normalize_invites(&mut self.invites);
        match nres {
            Ok(()) => {},
            Err(e) => {
                proof {
                    assert(first_bad_invite(inv0) is Some);
                    assert(first_bad_invite(old_self.invites) is Some);
                    let k = first_bad_invite(inv0)->Some_0;
                    lemma_first_bad_invite_facts(inv0);
                    let ie = invite_error(inv0[k]);
                    assert(nres == Err::<(), MembershipError>(ie->Some_0));
                    assert(!(ie->Some_0 is Space));
                    assert(!(e is Space));
                    assert(repaired_through(old_self, old_spaces, self@, spaces@, Err(e), mid));
                }
                return Err(e);
            },
        }
        let kept = keep_known_invites(&self.invites, spaces);
        proof {
            let src = invites_view(self.invites@);
            assert forall|x: SpaceInviteRecordView| space_exists(after, x.space_id) == space_exists(mid, x.space_id) by {
                crate::spaces::lemma_first_space_index_same_ids(after, mid, x.space_id);
            }
            assert(known_invites(src, after) =~= known_invites(src, mid)) by {
                assert((|x: SpaceInviteRecordView| space_exists(after, x.space_id)) =~= (|x: SpaceInviteRecordView| space_exists(mid, x.space_id)));
            }
        }
        self.invites = kept;
        proof {
            assert(repaired_through(old_self, old_spaces, self@, spaces@, Ok(()), mid));
        }
        Ok(())
    }
}

/// No two neighbouring invites share an invite id.
pub open spec fn neighbour_ids_differ(s: Seq<SpaceInviteRecordView>) -> bool {
    forall|i: int| 0 <= i && i + 1 < s.len() ==> #[trigger] s[i].invite_id != s[i + 1].invite_id
}

/// Repairing an invite twice is repairing it once, and it reports the same
/// blank id.
proof fn lemma_fix_invite_twice(i: SpaceInviteRecordView)
    ensures
        fix_invite(fix_invite(i)) == fix_invite(i),
        invite_error(fix_invite(i)) == invite_error(i),
{
    crate::text::lemma_trim_idempotent(i.invite_id);
    crate::text::lemma_trim_idempotent(i.space_id);
    crate::text::lemma_trim_idempotent(i.target_peer_id);
    crate::text::lemma_trim_idempotent(i.invited_by);
}

/// Repairing a membership record twice is repairing it once.
proof fn lemma_repair_record_twice(r: MembershipRecordView)
    ensures
        repair_record(repair_record(r)) == repair_record(r),
{
    crate::text::lemma_trim_idempotent(r.space_id);
    crate::text::lemma_trim_idempotent(r.owner_device_id);
}

/// No invite has a blank id exactly when none is reported.
proof fn lemma_first_bad_invite_none(s: Seq<SpaceInviteRecordView>)
    ensures
        first_bad_invite(s) is None <==> forall|i: int| 0 <= i < s.len() ==> (#[trigger] invite_error(s[i])) is None,
    decreases s.len(),
{
    if s.len() > 0 {
        let d = s.drop_last();
        lemma_first_bad_invite_none(d);
        if first_bad_invite(s) is None {
            assert forall|i: int| 0 <= i < s.len() implies (#[trigger] invite_error(s[i])) is None by {
                if i < d.len() {
                    assert(d[i] == s[i]);
                }
            }
        } else {
            lemma_first_bad_invite_facts(s);
        }
        if forall|i: int| 0 <= i < s.len() ==> (#[trigger] invite_error(s[i])) is None {
            assert forall|i: int| 0 <= i < d.len() implies (#[trigger] invite_error(d[i])) is None by {
                assert(d[i] == s[i]);
            }
            assert(invite_error(s[s.len() - 1]) is None);
        }
    }
}

/// What dedup keeps comes from the input; it keeps a sorted sequence sorted,
/// and a sequence whose neighbours have different ids whole.
proof fn lemma_dedup_invites_facts(s: Seq<SpaceInviteRecordView>, key: spec_fn(SpaceInviteRecordView) -> Seq<Seq<char>>)
    ensures
        forall|i: int| 0 <= i < dedup_invites(s).len() ==> s.contains(#[trigger] dedup_invites(s)[i]),
        crate::order::sorted_by_key(s, key) ==> crate::order::sorted_by_key(dedup_invites(s), key),
        neighbour_ids_differ(s) ==> dedup_invites(s) == s,
    decreases s.len(),
{
    if s.len() > 0 {
        let d = s.drop_last();
        lemma_dedup_invites_facts(d, key);
        let dd = dedup_invites(d);
        let r = dedup_invites(s);
        assert forall|i: int| 0 <= i < r.len() implies s.contains(#[trigger] r[i]) by {
            if i < dd.len() {
                assert(r[i] == dd[i]);
                let k = choose|k: int| 0 <= k < d.len() && d[k] == dd[i];
                assert(s[k] == d[k]);
            } else {
                assert(r[i] == s[s.len() - 1]);
            }
        }
        if crate::order::sorted_by_key(s, key) {
            assert forall|i: int, j: int| 0 <= i < j < d.len() implies !crate::order::keys_lt(#[trigger] key(d[j]), #[trigger] key(d[i])) by {
                assert(d[i] == s[i] && d[j] == s[j]);
            }
            assert forall|i: int, j: int| 0 <= i < j < r.len() implies !crate::order::keys_lt(#[trigger] key(r[j]), #[trigger] key(r[i])) by {
                if j == dd.len() {
                    assert(r[i] == dd[i]);
                    assert(d.contains(dd[i]));
                    let k = choose|k: int| 0 <= k < d.len() && d[k] == dd[i];
                    assert(s[k] == dd[i]);
                    assert(r[j] == s[s.len() - 1]);
                } else {
                    assert(r[i] == dd[i] && r[j] == dd[j]);
                }
            }
        }
        if neighbour_ids_differ(s) {
            assert forall|i: int| 0 <= i && i + 1 < d.len() implies #[trigger] d[i].invite_id != d[i + 1].invite_id by {
                assert(d[i] == s[i] && d[i + 1] == s[i + 1]);
                assert(s[i].invite_id != s[i + 1].invite_id);
            }
            if d.len() > 0 {
                assert(s[s.len() - 2].invite_id != s[s.len() - 1].invite_id);
                assert(dd.last() == s[s.len() - 2]);
            }
            assert(d.push(s.last()) =~= s);
        }
    }
}

/// Repairing a repaired membership changes nothing: once repair of the
/// spaces and the membership has succeeded, repairing both again succeeds
/// and leaves them as they are, as long as no two neighbouring invites left
/// by the first repair share an invite id.
pub proof fn lemma_membership_repair_idempotent(
    m0: MembershipView,
    s0: Seq<SpaceRecordView>,
    m1: MembershipView,
    s1: Seq<SpaceRecordView>,
    m2: MembershipView,
    s2: Seq<SpaceRecordView>,
    r: Result<(), MembershipError>,
)
    requires
        membership_repair_post(m0, s0, m1, s1, Ok(())),
        membership_repair_post(m1, s1, m2, s2, r),
        neighbour_ids_differ(m1.invites),
    ensures
        r is Ok,
        m2 == m1,
        s2 == s1,
{
    broadcast use vstd::seq_lib::group_to_multiset_ensures;

    let mid = choose|mid: Seq<SpaceRecordView>| #[trigger] repaired_through(m0, s0, m1, s1, Ok(()), mid);
    let left = left_space_ids(m1.records);
    // the spaces: switching spaces off keeps a repaired store repaired
    assert(s1.len() == mid.len());
    assert forall|i: int| 0 <= i < mid.len() implies #[trigger] s1[i] == crate::spaces::with_active(mid[i], s1[i].active) by {}
    assert forall|i: int| 0 <= i < s1.len() implies #[trigger] s1[i].space_id == mid[i].space_id by {}
    match r {
        Err(MembershipError::Space(e)) => {
            crate::spaces::lemma_repaired_store_stable(s0, mid, s1, s2, Err(e));
        },
        _ => {},
    }
    let mid2 = choose|mid2: Seq<SpaceRecordView>| #[trigger] repaired_through(m1, s1, m2, s2, r, mid2);
    crate::spaces::lemma_repaired_store_stable(s0, mid, s1, mid2, Ok(()));
    assert(mid2 == s1);
    assert forall|k: Seq<char>| #[trigger] space_exists(s1, k) == space_exists(mid, k) by {
        crate::spaces::lemma_first_space_index_same_ids(s1, mid, k);
    }
    // the records
    assert(m2.records =~= m1.records) by {
        assert forall|k: Seq<char>| #[trigger] m1.records.contains_key(k) implies m2.records[k] == m1.records[k] by {
            lemma_repair_record_twice(m0.records[k]);
        }
    }
    // the spaces switched off again are those switched off before
    assert(s2 =~= s1) by {
        assert forall|i: int| 0 <= i < s1.len() implies #[trigger] s2[i] == s1[i] by {
            crate::spaces::lemma_first_space_index_same_ids(s1, mid, s1[i].space_id);
        }
    }
    // the invites
    let inv0 = m0.invites;
    assert(first_bad_invite(inv0) is None);
    lemma_first_bad_invite_none(inv0);
    let key = by_space_target_id();
    let fixed = fixed_invites(inv0);
    let sorted = crate::order::sort_by_key(fixed, key);
    let deduped = dedup_invites(sorted);
    let pred = |i: SpaceInviteRecordView| space_exists(mid, i.space_id);
    assert(m1.invites == deduped.filter(pred));
    assert forall|i: int| 0 <= i < fixed.len() implies #[trigger] fix_invite(fixed[i]) == fixed[i] && invite_error(fixed[i]) is None by {
        lemma_fix_invite_twice(inv0[i]);
        assert(invite_error(inv0[i]) is None);
    }
    crate::order::lemma_sort_by_key_sorted(fixed, key);
    lemma_dedup_invites_facts(sorted, key);
    crate::order::lemma_filter_sorted(deduped, pred, key);
    let inv1 = m1.invites;
    assert forall|j: int| 0 <= j < inv1.len() implies #[trigger] fix_invite(inv1[j]) == inv1[j] && invite_error(inv1[j]) is None
        && space_exists(mid, inv1[j].space_id) by {
        let y = inv1[j];
        assert(inv1.contains(y));
        deduped.lemma_filter_pred(pred, j);
        deduped.lemma_filter_contains_rev(pred, y);
        let a = choose|a: int| 0 <= a < deduped.len() && deduped[a] == y;
        assert(sorted.contains(deduped[a]));
        assert(sorted.to_multiset().count(y) > 0);
        assert(fixed.to_multiset().count(y) > 0);
        assert(fixed.contains(y));
        let b = choose|b: int| 0 <= b < fixed.len() && fixed[b] == y;
    }
    lemma_first_bad_invite_none(inv1);
    assert(fixed_invites(inv1) =~= inv1);
    crate::order::lemma_sort_by_key_of_sorted(inv1, key);
    lemma_dedup_invites_facts(inv1, key);
    crate::order::lemma_filter_all(inv1, |i: SpaceInviteRecordView| space_exists(s1, i.space_id));
    assert(m2.invites == inv1);
}

/// A membership that repair leaves: every record is of a space in
/// `spaces` and has a revision; a left record has no invite state and its
/// space is switched off; a record not left has a key epoch; every invite
/// is of a known space, has a revision, and the invites are ordered by
/// space, target and id.
pub open spec fn membership_normal(m: MembershipView, spaces: Seq<SpaceRecordView>) -> bool {
    &&& forall|k: Seq<char>| #[trigger] m.records.contains_key(k) ==> space_exists(spaces, k)
    &&& forall|k: Seq<char>| #[trigger] m.records.contains_key(k) ==> m.records[k].revision >= 1
    &&& forall|k: Seq<char>|
        #[trigger] m.records.contains_key(k) && m.records[k].left ==> m.records[k].invite_state is None && (space_exists(
            spaces,
            m.records[k].space_id,
        ) ==> !space_with_id(spaces, m.records[k].space_id).active)
    &&& forall|k: Seq<char>| #[trigger] m.records.contains_key(k) && !m.records[k].left ==> m.records[k].key_epoch >= 1
    &&& forall|j: int|
        0 <= j < m.invites.len() ==> space_exists(spaces, (#[trigger] m.invites[j]).space_id) && m.invites[j].revision >= 1
    &&& crate::order::sorted_by_key(m.invites, by_space_target_id())
}

/// The membership left by a repair whose spaces repaired into `mid` and
/// whose invites had no blank id is normal.
proof fn lemma_repaired_membership_normal(
    m0: MembershipView,
    s0: Seq<SpaceRecordView>,
    m1: MembershipView,
    s1: Seq<SpaceRecordView>,
    r: Result<(), MembershipError>,
    mid: Seq<SpaceRecordView>,
)
    requires
        repaired_through(m0, s0, m1, s1, r, mid),
        first_bad_invite(m0.invites) is None,
    ensures
        membership_normal(m1, s1),
{
    broadcast use vstd::seq_lib::group_to_multiset_ensures;

    let left = left_space_ids(m1.records);
    assert(s1.len() == mid.len());
    assert forall|i: int| 0 <= i < s1.len() implies #[trigger] s1[i].space_id == mid[i].space_id by {}
    assert forall|k: Seq<char>| #[trigger] space_exists(s1, k) == space_exists(mid, k) by {
        crate::spaces::lemma_first_space_index_same_ids(s1, mid, k);
    }
    // records
    assert forall|k: Seq<char>|
        #[trigger] m1.records.contains_key(k) && m1.records[k].left implies m1.records[k].invite_state is None && (
        space_exists(s1, m1.records[k].space_id) ==> !space_with_id(s1, m1.records[k].space_id).active) by {
        let id = m1.records[k].space_id;
        assert(left.contains(id));
        if space_exists(s1, id) {
            crate::spaces::lemma_first_space_index_same_ids(s1, mid, id);
            crate::spaces::lemma_first_space_index_facts(mid, id);
        }
    }
    // invites
    let inv0 = m0.invites;
    let key = by_space_target_id();
    let fixed = fixed_invites(inv0);
    let sorted = crate::order::sort_by_key(fixed, key);
    let deduped = dedup_invites(sorted);
    let pred = |i: SpaceInviteRecordView| space_exists(mid, i.space_id);
    assert(m1.invites == deduped.filter(pred));
    crate::order::lemma_sort_by_key_sorted(fixed, key);
    lemma_dedup_invites_facts(sorted, key);
    crate::order::lemma_filter_sorted(deduped, pred, key);
    let inv1 = m1.invites;
    assert forall|j: int| 0 <= j < inv1.len() implies space_exists(s1, (#[trigger] inv1[j]).space_id) && inv1[j].revision
        >= 1 by {
        let y = inv1[j];
        assert(inv1.contains(y));
        deduped.lemma_filter_pred(pred, j);
        deduped.lemma_filter_contains_rev(pred, y);
        let a = choose|a: int| 0 <= a < deduped.len() && deduped[a] == y;
        assert(sorted.contains(deduped[a]));
        assert(sorted.to_multiset().count(y) > 0);
        assert(fixed.to_multiset().count(y) > 0);
        assert(fixed.contains(y));
        let b = choose|b: int| 0 <= b < fixed.len() && fixed[b] == y;
        assert(fixed[b] == fix_invite(inv0[b]));
    }
}

/// What repairing the spaces and the membership comes to, in their own
/// terms: it succeeds exactly when the spaces are valid and no invite has
/// a blank id; then the spaces are normal and so is the membership.
pub proof fn lemma_membership_repair_outcome(
    m0: MembershipView,
    s0: Seq<SpaceRecordView>,
    m1: MembershipView,
    s1: Seq<SpaceRecordView>,
    r: Result<(), MembershipError>,
)
    requires
        membership_repair_post(m0, s0, m1, s1, r),
    ensures
        r is Ok <==> crate::spaces::store_valid(s0) && forall|i: int|
            0 <= i < m0.invites.len() ==> (#[trigger] invite_error(m0.invites[i])) is None,
        r is Ok ==> membership_normal(m1, s1),
{
    broadcast use vstd::seq_lib::group_to_multiset_ensures;

    lemma_first_bad_invite_none(m0.invites);
    match r {
        Err(MembershipError::Space(e)) => {
            crate::spaces::lemma_repair_outcome(s0, s1, Err(e));
        },
        _ => {
            let mid = choose|mid: Seq<SpaceRecordView>| #[trigger] repaired_through(m0, s0, m1, s1, r, mid);
            crate::spaces::lemma_repair_outcome(s0, mid, Ok(()));
            if first_bad_invite(m0.invites) is Some {
                lemma_first_bad_invite_facts(m0.invites);
            } else {
                lemma_repaired_membership_normal(m0, s0, m1, s1, r, mid);
            }
        },
    }
}

/// A member never goes back to an older owner update: an update whose
/// revision is not above the member's record changes nothing and applies
/// nothing, and no record's revision ever decreases. An update applied
/// carries a newer revision, which the record takes.
pub proof fn lemma_owner_update_never_goes_back(
    m0: MembershipView,
    s0: Seq<SpaceRecordView>,
    u: SpaceSyncUpdateView,
    m1: MembershipView,
    s1: Seq<SpaceRecordView>,
    r: Result<Option<SpaceRecordView>, MembershipError>,
)
    requires
        owner_update_post(m0, s0, u, m1, s1, r),
    ensures
        m0.records.contains_key(u.space_id) && u.revision <= m0.records[u.space_id].revision ==> {
            &&& m1 == m0
            &&& s1 == s0
            &&& !(r matches Ok(Some(_)))
        },
        forall|k: Seq<char>| #[trigger] m0.records.contains_key(k) ==> m1.records.contains_key(k) && m1.records[k].revision
            >= m0.records[k].revision,
        r matches Ok(Some(_)) ==> {
            &&& m0.records.contains_key(u.space_id)
            &&& u.revision > m0.records[u.space_id].revision
            &&& m1.records[u.space_id].revision == u.revision
        },
{
}

} // verus!
