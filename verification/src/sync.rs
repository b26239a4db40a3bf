//! Space sync between devices: the messages, what a device does with one it
//! receives, and to whom the owner sends its updates.
use crate::external::{base64_decode, base64_decoding, base64_encode, base64_encoding};
use crate::membership::{
    acceptance_post, bumped, import_invite_post, members_without, membership_repair_post, owner_update_post,
    owns, replace_space, space_exists, space_with_id, update_of, ImportedSpaceInvite, ImportedSpaceInviteView,
    MembershipError, MembershipRecordView, MembershipView, SpaceMembershipStore, SpaceSyncUpdate,
    SpaceSyncUpdateView,
};
use crate::spaces::{SpaceRecord, SpaceRecordView, SpaceStore};
use crate::text::{clone_strings, contains_str, lemma_filter_push, str_eq};
use vstd::prelude::*;

verus! {

/// The service name space sync messages travel under.
pub const SPACE_SYNC_SERVICE: &'static str = "locallink.space.sync";

/// A message between devices about a space.
pub enum SpaceSyncMessage {
    Invite { invite: ImportedSpaceInvite },
    InviteAccept { space_id: String, peer_id: String },
    InviteDecline { space_id: String, peer_id: String },
    Leave { space_id: String, peer_id: String },
    Update { update: SpaceSyncUpdate },
}

pub enum SyncMessageView {
    Invite { invite: ImportedSpaceInviteView },
    InviteAccept { space_id: Seq<char>, peer_id: Seq<char> },
    InviteDecline { space_id: Seq<char>, peer_id: Seq<char> },
    Leave { space_id: Seq<char>, peer_id: Seq<char> },
    Update { update: SpaceSyncUpdateView },
}

impl View for SpaceSyncMessage {
    type V = SyncMessageView;

    open spec fn view(&self) -> SyncMessageView {
        match self {
            SpaceSyncMessage::Invite { invite } => SyncMessageView::Invite { invite: invite@ },
            SpaceSyncMessage::InviteAccept { space_id, peer_id } => SyncMessageView::InviteAccept {
                space_id: space_id@,
                peer_id: peer_id@,
            },
            SpaceSyncMessage::InviteDecline { space_id, peer_id } => SyncMessageView::InviteDecline {
                space_id: space_id@,
                peer_id: peer_id@,
            },
            SpaceSyncMessage::Leave { space_id, peer_id } => SyncMessageView::Leave { space_id: space_id@, peer_id: peer_id@ },
            SpaceSyncMessage::Update { update } => SyncMessageView::Update { update: update@ },
        }
    }
}

/// How sending a message to one peer went.
pub struct SyncDeliveryResult {
    pub peer_id: String,
    pub ok: bool,
    pub message_id: Option<String>,
    pub error: Option<String>,
}

/// What applying a batch of received sync messages came to.
pub struct SpaceSyncApplyReport {
    pub applied: usize,
    pub ignored: usize,
    pub errors: Vec<String>,
}

impl SpaceSyncApplyReport {
    pub fn new() -> (r: Self)
        ensures
            r.applied == 0,
            r.ignored == 0,
            r.errors@.len() == 0,
    {
        SpaceSyncApplyReport { applied: 0, ignored: 0, errors: Vec::new() }
    }

    /// Counts one message that changed the local state.
    pub fn count_applied(&mut self)
        requires
            old(self).applied < usize::MAX,
        ensures
            final(self).applied == old(self).applied + 1,
            final(self).ignored == old(self).ignored,
            final(self).errors@ == old(self).errors@,
    {
        self.applied = self.applied + 1;
    }

    /// Counts one message that changed nothing.
    pub fn count_ignored(&mut self)
        requires
            old(self).ignored < usize::MAX,
        ensures
            final(self).ignored == old(self).ignored + 1,
            final(self).applied == old(self).applied,
            final(self).errors@ == old(self).errors@,
    {
        self.ignored = self.ignored + 1;
    }

    /// Records the error one message gave.
    pub fn push_error(&mut self, error: String)
        ensures
            final(self).errors@ == old(self).errors@.push(error),
            final(self).applied == old(self).applied,
            final(self).ignored == old(self).ignored,
    {
        self.errors.push(error);
    }
}

/// Why a received sync message was refused.
#[derive(Debug)]
pub enum SyncError {
    Membership(MembershipError),
    InviteOwnerMismatch,
    AcceptSenderMismatch,
    LeaveSenderMismatch,
    UpdateOwnerMismatch,
    BadEncoding,
}

/// The base64 text a sync message travels as, from its JSON bytes.
pub fn encode_sync_message(json: &Vec<u8>) -> (r: String)
    ensures
        r@ == base64_encoding(json@),
        base64_decoding(r@) == Some(json@),
{
    proof {
        crate::external::lemma_base64_round_trip(json@);
    }
    base64_encode(json.as_slice())
}

/// The JSON bytes of a sync message from the base64 text it travelled as.
pub fn decode_sync_message(data_b64: &str) -> (r: Result<Vec<u8>, SyncError>)
    ensures
        match base64_decoding(data_b64@) {
            Some(b) => r matches Ok(v) && v@ == b,
            None => r matches Err(SyncError::BadEncoding),
        },
{
    match base64_decode(data_b64) {
        Ok(v) => Ok(v),
        Err(_) => Err(SyncError::BadEncoding),
    }
}

/// The base64 payload of an event, if it is space sync data.
pub fn sync_event_data(kind: &str, service: &str, data_b64: &Option<String>) -> (r: Option<String>)
    ensures
        r == (if kind@ == "space_service_data"@ && service@ == SPACE_SYNC_SERVICE@ {
            match data_b64 {
                Some(d) => Some(*d),
                None => None,
            }
        } else {
            None::<String>
        }),
{
    if !str_eq(kind, "space_service_data") || !str_eq(service, SPACE_SYNC_SERVICE) {
        return None;
    }
    match data_b64 {
        Some(d) => Some(d.clone()),
        None => None,
    }
}

/// Whether a core service message is a space sync message.
pub fn is_space_sync_service(service: &str) -> (r: bool)
    ensures
        r == (service@ == SPACE_SYNC_SERVICE@),
{
    str_eq(service, SPACE_SYNC_SERVICE)
}

/// The invite an owner sends for one of its spaces.
pub fn imported_invite_from_space(
    space: &SpaceRecord,
    owner_device_id: &str,
    invite_id: String,
    revision: u64,
    owner_enabled: bool,
    key_epoch: u64,
) -> (r: ImportedSpaceInvite)
    ensures
        r@ == (ImportedSpaceInviteView {
            space_id: space@.space_id,
            name: space@.name,
            kind: space@.kind,
            owner_device_id: owner_device_id@,
            invite_id: invite_id@,
            revision,
            owner_enabled,
            members: space@.members,
            key_epoch,
        }),
{
    ImportedSpaceInvite {
        space_id: space.space_id.clone(),
        name: space.name.clone(),
        kind: space.kind,
        owner_device_id: owner_device_id.to_owned(),
        invite_id,
        revision,
        owner_enabled,
        members: clone_strings(&space.members),
        key_epoch,
    }
}

/// The peers an owner's update goes to: its members, in order, each once,
/// without the owner and without `exclude`.
pub open spec fn update_targets(members: Seq<Seq<char>>, owner: Seq<char>, exclude: Option<Seq<char>>) -> Seq<Seq<char>>
    decreases members.len(),
{
    if members.len() == 0 {
        members
    } else {
        let t = update_targets(members.drop_last(), owner, exclude);
        let x = members.last();
        if x == owner || exclude == Some(x) || t.contains(x) {
            t
        } else {
            t.push(x)
        }
    }
}

pub open spec fn opt_view(o: Option<String>) -> Option<Seq<char>> {
    match o {
        Some(s) => Some(s@),
        None => None,
    }
}

/// The peers an owner's update is sent to.
pub fn broadcast_targets(update: &SpaceSyncUpdate, exclude: Option<&str>) -> (r: Vec<String>)
    ensures
        r.deep_view() == update_targets(
            update@.members,
            update@.owner_device_id,
            match exclude {
                Some(e) => Some(e@),
                None => None,
            },
        ),
{
    let ghost ms = update@.members;
    let ghost ex = match exclude {
        Some(e) => Some(e@),
        None => None,
    };
    let mut out: Vec<String> = Vec::new();
    let mut i: usize = 0;
    while i < update.members.len()
        invariant
            ms == update@.members,
            ex == (match exclude {
                Some(e) => Some(e@),
                None => None::<Seq<char>>,
            }),
            i <= ms.len(),
            out.deep_view() == update_targets(ms.take(i as int), update@.owner_device_id, ex),
        decreases ms.len() - i,
    {
        let x = &update.members[i];
        proof {
            assert(ms[i as int] == x@);
            assert(ms.take(i + 1).drop_last() == ms.take(i as int));
            assert(ms.take(i + 1).last() == x@);
        }
        let excluded = match exclude {
            Some(e) => str_eq(e, x.as_str()),
            None => false,
        };
        if !str_eq(x.as_str(), update.owner_device_id.as_str()) && !excluded && !contains_str(&out, x.as_str()) {
            let ghost before = out.deep_view();
            out.push(x.clone());
            proof {
                assert(out.deep_view() =~= before.push(x@));
            }
        }
        i = i + 1;
    }
    proof {
        assert(ms.take(ms.len() as int) == ms);
    }
    out
}

/// What the owner's handling of `peer` leaving a space does.
pub open spec fn leave_post(
    m0: MembershipView,
    s0: Seq<SpaceRecordView>,
    local: Seq<char>,
    space_id: Seq<char>,
    peer: Seq<char>,
    m1: MembershipView,
    s1: Seq<SpaceRecordView>,
    r: Result<Option<SpaceSyncUpdateView>, MembershipError>,
) -> bool {
    if !m0.records.contains_key(space_id) || !owns(m0.records[space_id], local) {
        m1 == m0 && s1 == s0 && r == Ok::<Option<SpaceSyncUpdateView>, MembershipError>(None)
    } else if space_exists(s0, space_id) && !space_with_id(s0, space_id).members.contains(peer) {
        m1 == m0 && s1 == s0 && r == Ok::<Option<SpaceSyncUpdateView>, MembershipError>(None)
    } else {
        let rec = MembershipRecordView { revision: bumped(m0.records[space_id].revision), ..m0.records[space_id] };
        &&& m1.records == m0.records.insert(space_id, rec)
        &&& m1.invites == m0.invites
        &&& if space_exists(s0, space_id) {
            let old_s = space_with_id(s0, space_id);
            let s = SpaceRecordView { members: members_without(old_s.members, peer), ..old_s };
            s1 == replace_space(s0, space_id, s) && r == Ok::<Option<SpaceSyncUpdateView>, MembershipError>(
                Some(update_of(s, rec)),
            )
        } else {
            s1 == s0 && r is Err && crate::membership::unknown_space_error(r->Err_0, space_id)
        }
    }
}

pub open spec fn opt_update_result_view(r: Result<Option<SpaceSyncUpdate>, MembershipError>) -> Result<
    Option<SpaceSyncUpdateView>,
    MembershipError,
> {
    match r {
        Ok(Some(u)) => Ok(Some(u@)),
        Ok(None) => Ok(None),
        Err(e) => Err(e),
    }
}

/// The owner learns that `peer_id` left a space: the peer leaves the
/// owner's copy of the space and the revision moves on. Returns the update
/// to send to the remaining members, or nothing when there is nothing to do.
pub fn remove_member_after_leave(
    membership: &mut SpaceMembershipStore,
    spaces: &mut SpaceStore,
    local_device_id: &str,
    space_id: &str,
    peer_id: &str,
) -> (r: Result<Option<SpaceSyncUpdate>, MembershipError>)
    ensures
        leave_post(
            old(membership)@,
            old(spaces)@,
            local_device_id@,
            space_id@,
            peer_id@,
            final(membership)@,
            final(spaces)@,
            opt_update_result_view(r),
        ),
{
    match membership.records.get(space_id) {
        Some(rec) => {
            if !rec.is_owner_for(local_device_id) {
                return Ok(None);
            }
        },
        None => {
            return Ok(None);
        },
    }
    let ghost s0 = spaces@;
    match spaces.find_space(space_id) {
        Some(i) => {
            proof {
                crate::spaces::lemma_first_space_index_facts(s0, space_id@);
            }
            if !contains_str(&spaces.spaces[i].members, peer_id) {
                return Ok(None);
            }
            let mut space = spaces.spaces.remove(i);
            let ghost before = space@;
            space.members = crate::membership::remove_member(&space.members, peer_id);
            spaces.spaces.insert(i, space);
            proof {
                assert(spaces@ =~= s0.update(i as int, SpaceRecordView { members: members_without(before.members, peer_id@), ..before }));
                crate::spaces::lemma_first_space_index_update(
                    s0,
                    space_id@,
                    i as int,
                    SpaceRecordView { members: members_without(before.members, peer_id@), ..before },
                );
            }
        },
        None => {},
    }
    let mut record = match membership.records.get(space_id) {
        Some(rec) => rec.clone(),
        None => {
            return Ok(None);
        },
    };
    record.revision = if record.revision == u64::MAX {
        u64::MAX
    } else {
        record.revision + 1
    };
    membership.records.insert(space_id.to_owned(), record);
    match membership.sync_update(spaces, local_device_id, space_id) {
        Ok(u) => Ok(Some(u)),
        Err(e) => Err(e),
    }
}


/// What a received message comes to: whether it changed the local state,
/// and the update to send on to the members, leaving out `exclude`.
pub struct SyncOutcome {
    pub applied: bool,
    pub broadcast: Option<SpaceSyncUpdate>,
    pub exclude: Option<String>,
}

pub struct SyncOutcomeView {
    pub applied: bool,
    pub broadcast: Option<SpaceSyncUpdateView>,
    pub exclude: Option<Seq<char>>,
}

impl View for SyncOutcome {
    type V = SyncOutcomeView;

    open spec fn view(&self) -> SyncOutcomeView {
        SyncOutcomeView {
            applied: self.applied,
            broadcast: match self.broadcast {
                Some(u) => Some(u@),
                None => None,
            },
            exclude: opt_view(self.exclude),
        }
    }
}

pub open spec fn outcome_result_view(r: Result<SyncOutcome, SyncError>) -> Result<SyncOutcomeView, SyncError> {
    match r {
        Ok(o) => Ok(o@),
        Err(e) => Err(e),
    }
}

pub open spec fn outcome(applied: bool, broadcast: Option<SpaceSyncUpdateView>, exclude: Option<Seq<char>>) -> SyncOutcomeView {
    SyncOutcomeView { applied, broadcast, exclude }
}

/// After a first step from `(m0, s0)` to `(m1, s1)` that failed with
/// `failed`, or else a repair of the whole store into `(m2, s2)`: the
/// result is the first error, the repair's error, or `ok`.
pub open spec fn then_repair(
    m1: MembershipView,
    s1: Seq<SpaceRecordView>,
    failed: Option<MembershipError>,
    m2: MembershipView,
    s2: Seq<SpaceRecordView>,
    r: Result<SyncOutcomeView, SyncError>,
    ok: SyncOutcomeView,
) -> bool {
    match failed {
        Some(e) => m2 == m1 && s2 == s1 && r == Err::<SyncOutcomeView, SyncError>(SyncError::Membership(e)),
        None => exists|r2: Result<(), MembershipError>|
            {
                &&& #[trigger] membership_repair_post(m1, s1, m2, s2, r2)
                &&& r == match r2 {
                    Ok(_) => Ok::<SyncOutcomeView, SyncError>(ok),
                    Err(e) => Err(SyncError::Membership(e)),
                }
            },
    }
}

pub open spec fn err_of<T>(r: Result<T, MembershipError>) -> Option<MembershipError> {
    match r {
        Ok(_) => None,
        Err(e) => Some(e),
    }
}

/// What a device does with an invite from `sender`.
pub open spec fn invite_message_post(
    m0: MembershipView,
    s0: Seq<SpaceRecordView>,
    local: Seq<char>,
    sender: Seq<char>,
    invite: ImportedSpaceInviteView,
    m1: MembershipView,
    s1: Seq<SpaceRecordView>,
    r: Result<SyncOutcomeView, SyncError>,
) -> bool {
    if invite.owner_device_id != sender {
        m1 == m0 && s1 == s0 && r matches Err(SyncError::InviteOwnerMismatch)
    } else if space_exists(s0, invite.space_id) {
        m1 == m0 && s1 == s0 && r == Ok::<SyncOutcomeView, SyncError>(outcome(false, None, None))
    } else {
        exists|mm: MembershipView, sm: Seq<SpaceRecordView>, r1: Result<SpaceRecordView, MembershipError>|
            {
                &&& #[trigger] import_invite_post(m0, s0, local, invite, mm, sm, r1)
                &&& then_repair(mm, sm, err_of(r1), m1, s1, r, outcome(true, None, None))
            }
    }
}

/// What the owner does with `peer_id`'s acceptance from `sender`.
pub open spec fn accept_message_post(
    m0: MembershipView,
    s0: Seq<SpaceRecordView>,
    local: Seq<char>,
    sender: Seq<char>,
    space_id: Seq<char>,
    peer_id: Seq<char>,
    m1: MembershipView,
    s1: Seq<SpaceRecordView>,
    r: Result<SyncOutcomeView, SyncError>,
) -> bool {
    if peer_id != sender {
        m1 == m0 && s1 == s0 && r matches Err(SyncError::AcceptSenderMismatch)
    } else {
        exists|mm: MembershipView, sm: Seq<SpaceRecordView>, r1: Result<SpaceSyncUpdateView, MembershipError>|
            {
                &&& #[trigger] acceptance_post(m0, s0, local, space_id, peer_id, mm, sm, r1)
                &&& then_repair(mm, sm, err_of(r1), m1, s1, r, outcome(true, Some(r1->Ok_0), None))
            }
    }
}

/// What the owner does with `peer_id`'s leaving, told by `sender`.
pub open spec fn leave_message_post(
    m0: MembershipView,
    s0: Seq<SpaceRecordView>,
    local: Seq<char>,
    sender: Seq<char>,
    space_id: Seq<char>,
    peer_id: Seq<char>,
    m1: MembershipView,
    s1: Seq<SpaceRecordView>,
    r: Result<SyncOutcomeView, SyncError>,
) -> bool {
    if peer_id != sender {
        m1 == m0 && s1 == s0 && r matches Err(SyncError::LeaveSenderMismatch)
    } else {
        exists|mm: MembershipView, sm: Seq<SpaceRecordView>, r1: Result<Option<SpaceSyncUpdateView>, MembershipError>|
            {
                &&& #[trigger] leave_post(m0, s0, local, space_id, peer_id, mm, sm, r1)
                &&& then_repair(mm, sm, err_of(r1), m1, s1, r, leave_outcome(r1, peer_id))
            }
    }
}

pub open spec fn leave_outcome(r1: Result<Option<SpaceSyncUpdateView>, MembershipError>, peer_id: Seq<char>) -> SyncOutcomeView {
    match r1 {
        Ok(Some(u)) => outcome(true, Some(u), Some(peer_id)),
        _ => outcome(false, None, None),
    }
}

/// What a member does with the owner's update from `sender`.
pub open spec fn update_message_post(
    m0: MembershipView,
    s0: Seq<SpaceRecordView>,
    sender: Seq<char>,
    update: SpaceSyncUpdateView,
    m1: MembershipView,
    s1: Seq<SpaceRecordView>,
    r: Result<SyncOutcomeView, SyncError>,
) -> bool {
    if update.owner_device_id != sender {
        m1 == m0 && s1 == s0 && r matches Err(SyncError::UpdateOwnerMismatch)
    } else {
        exists|mm: MembershipView, sm: Seq<SpaceRecordView>, r1: Result<Option<SpaceRecordView>, MembershipError>|
            {
                &&& #[trigger] owner_update_post(m0, s0, update, mm, sm, r1)
                &&& then_repair(mm, sm, err_of(r1), m1, s1, r, outcome(r1 matches Ok(Some(_)), None, None))
            }
    }
}

/// What a device does with a sync message `msg` from `sender`: the state
/// goes from `(m0, s0)` to `(m1, s1)` and the result is `r`.
pub open spec fn sync_message_post(
    m0: MembershipView,
    s0: Seq<SpaceRecordView>,
    local: Seq<char>,
    sender: Seq<char>,
    msg: SyncMessageView,
    m1: MembershipView,
    s1: Seq<SpaceRecordView>,
    r: Result<SyncOutcomeView, SyncError>,
) -> bool {
    match msg {
        SyncMessageView::Invite { invite } => invite_message_post(m0, s0, local, sender, invite, m1, s1, r),
        SyncMessageView::InviteAccept { space_id, peer_id } => accept_message_post(
            m0,
            s0,
            local,
            sender,
            space_id,
            peer_id,
            m1,
            s1,
            r,
        ),
        SyncMessageView::InviteDecline { .. } => m1 == m0 && s1 == s0 && r == Ok::<SyncOutcomeView, SyncError>(
            outcome(false, None, None),
        ),
        SyncMessageView::Leave { space_id, peer_id } => leave_message_post(m0, s0, local, sender, space_id, peer_id, m1, s1, r),
        SyncMessageView::Update { update } => update_message_post(m0, s0, sender, update, m1, s1, r),
    }
}

/// Repairs the store after a change and gives `ok` unless the repair fails.
fn repair_after(
    membership: &mut SpaceMembershipStore,
    spaces: &mut SpaceStore,
    ok: SyncOutcome,
) -> (r: Result<SyncOutcome, SyncError>)
    ensures
        then_repair(old(membership)@, old(spaces)@, None, final(membership)@, final(spaces)@, outcome_result_view(r), ok@),
{
    let res = membership.validate_and_repair(spaces);
    proof {
        assert(membership_repair_post(old(membership)@, old(spaces)@, membership@, spaces@, res));
    }
    match res {
        Ok(()) => Ok(ok),
        Err(e) => Err(SyncError::Membership(e)),
    }
}

fn apply_invite(
    membership: &mut SpaceMembershipStore,
    spaces: &mut SpaceStore,
    local_device_id: &str,
    sender_peer_id: &str,
    invite: ImportedSpaceInvite,
) -> (r: Result<SyncOutcome, SyncError>)
    ensures
        invite_message_post(
            old(membership)@,
            old(spaces)@,
            local_device_id@,
            sender_peer_id@,
            invite@,
            final(membership)@,
            final(spaces)@,
            outcome_result_view(r),
        ),
{
    if !str_eq(invite.owner_device_id.as_str(), sender_peer_id) {
        return Err(SyncError::InviteOwnerMismatch);
    }
    if spaces.find_space(invite.space_id.as_str()).is_some() {
        return Ok(SyncOutcome { applied: false, broadcast: None, exclude: None });
    }
    let ghost m0 = membership@;
    let ghost s0 = spaces@;
    let ghost iv = invite@;
    let r1 = membership.import_invite(spaces, local_device_id, invite);
    let ghost mm = membership@;
    let ghost sm = spaces@;
    let ghost rv = crate::membership::record_result_view(r1);
    let res = match r1 {
        Err(e) => Err(SyncError::Membership(e)),
        Ok(_) => repair_after(membership, spaces, SyncOutcome { applied: true, broadcast: None, exclude: None }),
    };
    proof {
        assert(import_invite_post(m0, s0, local_device_id@, iv, mm, sm, rv));
        assert(then_repair(mm, sm, err_of(rv), membership@, spaces@, outcome_result_view(res), outcome(true, None, None)));
    }
    res
}

fn apply_accept(
    membership: &mut SpaceMembershipStore,
    spaces: &mut SpaceStore,
    local_device_id: &str,
    sender_peer_id: &str,
    space_id: String,
    peer_id: String,
) -> (r: Result<SyncOutcome, SyncError>)
    ensures
        accept_message_post(
            old(membership)@,
            old(spaces)@,
            local_device_id@,
            sender_peer_id@,
            space_id@,
            peer_id@,
            final(membership)@,
            final(spaces)@,
            outcome_result_view(r),
        ),
{
    if !str_eq(peer_id.as_str(), sender_peer_id) {
        return Err(SyncError::AcceptSenderMismatch);
    }
    let ghost m0 = membership@;
    let ghost s0 = spaces@;
    let r1 = membership.record_member_acceptance(spaces, local_device_id, space_id.as_str(), peer_id.as_str());
    let ghost mm = membership@;
    let ghost sm = spaces@;
    let ghost rv = crate::membership::update_result_view(r1);
    let res = match r1 {
        Err(e) => Err(SyncError::Membership(e)),
        Ok(u) => repair_after(membership, spaces, SyncOutcome { applied: true, broadcast: Some(u), exclude: None }),
    };
    proof {
        assert(acceptance_post(m0, s0, local_device_id@, space_id@, peer_id@, mm, sm, rv));
        assert(then_repair(mm, sm, err_of(rv), membership@, spaces@, outcome_result_view(res), outcome(true, Some(rv->Ok_0), None)));
    }
    res
}

fn apply_leave(
    membership: &mut SpaceMembershipStore,
    spaces: &mut SpaceStore,
    local_device_id: &str,
    sender_peer_id: &str,
    space_id: String,
    peer_id: String,
) -> (r: Result<SyncOutcome, SyncError>)
    ensures
        leave_message_post(
            old(membership)@,
            old(spaces)@,
            local_device_id@,
            sender_peer_id@,
            space_id@,
            peer_id@,
            final(membership)@,
            final(spaces)@,
            outcome_result_view(r),
        ),
{
    if !str_eq(peer_id.as_str(), sender_peer_id) {
        return Err(SyncError::LeaveSenderMismatch);
    }
    let ghost m0 = membership@;
    let ghost s0 = spaces@;
    let ghost pv = peer_id@;
    let r1 = remove_member_after_leave(membership, spaces, local_device_id, space_id.as_str(), peer_id.as_str());
    let ghost mm = membership@;
    let ghost sm = spaces@;
    let ghost rv = opt_update_result_view(r1);
    let res = match r1 {
        Err(e) => Err(SyncError::Membership(e)),
        Ok(Some(u)) => repair_after(membership, spaces, SyncOutcome { applied: true, broadcast: Some(u), exclude: Some(peer_id) }),
        Ok(None) => repair_after(membership, spaces, SyncOutcome { applied: false, broadcast: None, exclude: None }),
    };
    proof {
        assert(leave_post(m0, s0, local_device_id@, space_id@, pv, mm, sm, rv));
        assert(then_repair(mm, sm, err_of(rv), membership@, spaces@, outcome_result_view(res), leave_outcome(rv, pv)));
    }
    res
}

fn apply_update(
    membership: &mut SpaceMembershipStore,
    spaces: &mut SpaceStore,
    sender_peer_id: &str,
    update: SpaceSyncUpdate,
) -> (r: Result<SyncOutcome, SyncError>)
    ensures
        update_message_post(
            old(membership)@,
            old(spaces)@,
            sender_peer_id@,
            update@,
            final(membership)@,
            final(spaces)@,
            outcome_result_view(r),
        ),
{
    if !str_eq(update.owner_device_id.as_str(), sender_peer_id) {
        return Err(SyncError::UpdateOwnerMismatch);
    }
    let ghost m0 = membership@;
    let ghost s0 = spaces@;
    let ghost uv = update@;
    let r1 = membership.apply_owner_update(spaces, update);
    let ghost mm = membership@;
    let ghost sm = spaces@;
    let ghost rv = crate::membership::option_record_result_view(r1);
    let res = match r1 {
        Err(e) => Err(SyncError::Membership(e)),
        Ok(Some(_)) => repair_after(membership, spaces, SyncOutcome { applied: true, broadcast: None, exclude: None }),
        Ok(None) => repair_after(membership, spaces, SyncOutcome { applied: false, broadcast: None, exclude: None }),
    };
    proof {
        assert(owner_update_post(m0, s0, uv, mm, sm, rv));
        assert(then_repair(mm, sm, err_of(rv), membership@, spaces@, outcome_result_view(res), outcome(rv matches Ok(Some(_)), None, None)));
    }
    res
}

impl SpaceMembershipStore {
    /// Applies a sync message received from `sender_peer_id`. The sender
    /// must be who the message speaks for. Every change is followed by a
    /// repair of the store. The outcome says whether anything changed and
    /// which update, if any, to send on to the members.
    pub fn apply_sync_message(
        &mut self,
        spaces: &mut SpaceStore,
        local_device_id: &str,
        sender_peer_id: &str,
        message: SpaceSyncMessage,
    ) -> (r: Result<SyncOutcome, SyncError>)
        ensures
            sync_message_post(
                old(self)@,
                old(spaces)@,
                local_device_id@,
                sender_peer_id@,
                message@,
                final(self)@,
                final(spaces)@,
                outcome_result_view(r),
            ),
    {
        match message {
            SpaceSyncMessage::Invite { invite } => apply_invite(self, spaces, local_device_id, sender_peer_id, invite),
            SpaceSyncMessage::InviteAccept { space_id, peer_id } => apply_accept(
                self,
                spaces,
                local_device_id,
                sender_peer_id,
                space_id,
                peer_id,
            ),
            SpaceSyncMessage::InviteDecline { .. } => Ok(SyncOutcome { applied: false, broadcast: None, exclude: None }),
            SpaceSyncMessage::Leave { space_id, peer_id } => apply_leave(
                self,
                spaces,
                local_device_id,
                sender_peer_id,
                space_id,
                peer_id,
            ),
            SpaceSyncMessage::Update { update } => apply_update(self, spaces, sender_peer_id, update),
        }
    }
}

} // verus!
