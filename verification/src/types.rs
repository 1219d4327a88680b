//! Data model shared by the whole crate: log ids, entries, membership,
//! hard state, snapshot metadata, and the storage error type.

use vstd::prelude::*;

verus! {

/// Node identifier.
pub type RocksNodeId = u64;

/// Identifier of a log entry: the term in which it was created and its
/// position in the log. Ordered lexicographically by `(term, index)`.
/// Index 0 is reserved; no entry carries it.
#[derive(Clone, Copy, PartialEq, Eq, Structural, Debug)]
pub struct LogId {
    pub term: u64,
    pub index: u64,
}

impl LogId {
    /// Lexicographic order on `(term, index)`.
    pub open spec fn spec_le(self, other: LogId) -> bool {
        self.term < other.term || (self.term == other.term && self.index <= other.index)
    }

    pub open spec fn spec_lt(self, other: LogId) -> bool {
        self.spec_le(other) && self != other
    }

    /// Decides the lexicographic order on `(term, index)`.
    pub fn le(&self, other: &LogId) -> (r: bool)
        ensures
            r == self.spec_le(*other),
    {
        self.term < other.term || (self.term == other.term && self.index <= other.index)
    }
}

/// Order on optional log ids: `None` (no log id) is below every present one.
pub open spec fn opt_log_id_le(a: Option<LogId>, b: Option<LogId>) -> bool {
    match a {
        Option::None => true,
        Option::Some(x) => match b {
            Option::None => false,
            Option::Some(y) => x.spec_le(y),
        },
    }
}

/// Decides `opt_log_id_le`.
pub fn opt_le(a: &Option<LogId>, b: &Option<LogId>) -> (r: bool)
    ensures
        r == opt_log_id_le(*a, *b),
{
    match a {
        Option::None => true,
        Option::Some(x) => match b {
            Option::None => false,
            Option::Some(y) => x.le(y),
        },
    }
}

/// The durable state Raft safety rests on: the current term and the vote
/// cast in it. It must be persisted before any action bound to the term.
#[derive(Clone, Copy, PartialEq, Eq, Debug)]
pub struct HardState {
    pub current_term: u64,
    pub voted_for: Option<RocksNodeId>,
}

/// A client request replicated through the log.
#[derive(Debug)]
pub enum RocksRequest {
    Put { key: String, value: String },
}

/// Ghost form of a [`RocksRequest`].
pub enum RequestV {
    Put { key: Seq<char>, value: Seq<char> },
}

impl View for RocksRequest {
    type V = RequestV;

    open spec fn view(&self) -> RequestV {
        match self {
            RocksRequest::Put { key, value } => RequestV::Put { key: key@, value: value@ },
        }
    }
}

impl Clone for RocksRequest {
    fn clone(&self) -> (res: Self)
        ensures
            res == *self,
    {
        match self {
            RocksRequest::Put { key, value } => RocksRequest::Put {
                key: key.clone(),
                value: value.clone(),
            },
        }
    }
}

/// The answer a node gives after applying one entry: the value written, if
/// the entry wrote one.
#[derive(Debug)]
pub struct RocksResponse {
    pub value: Option<String>,
}

impl View for RocksResponse {
    type V = Option<Seq<char>>;

    open spec fn view(&self) -> Option<Seq<char>> {
        match self.value {
            Option::None => Option::None,
            Option::Some(ref s) => Option::Some(s@),
        }
    }
}

impl Clone for RocksResponse {
    fn clone(&self) -> (res: Self)
        ensures
            res == *self,
    {
        RocksResponse {
            value: match &self.value {
                Option::None => Option::None,
                Option::Some(s) => Option::Some(s.clone()),
            },
        }
    }
}

/// A membership configuration: one voter set in steady state, two during
/// joint consensus, plus the learner set.
#[derive(Debug)]
pub struct MembershipConfig {
    pub configs: Vec<Vec<RocksNodeId>>,
    pub learners: Vec<RocksNodeId>,
}

/// Ghost form of a [`MembershipConfig`].
pub struct MembershipV {
    pub configs: Seq<Seq<RocksNodeId>>,
    pub learners: Seq<RocksNodeId>,
}

impl View for MembershipConfig {
    type V = MembershipV;

    open spec fn view(&self) -> MembershipV {
        MembershipV { configs: self.configs.deep_view(), learners: self.learners@ }
    }
}

impl Clone for MembershipConfig {
    fn clone(&self) -> (res: Self)
        ensures
            res@ == self@,
    {
        let res = MembershipConfig { configs: self.configs.clone(), learners: self.learners.clone() };
        proof {
            assert(res.configs.deep_view() =~~= self.configs.deep_view());
            assert(res.learners@ =~= self.learners@);
        }
        res
    }
}

/// The membership configuration in force at a given log id.
#[derive(Debug)]
pub struct EffectiveMembership {
    pub log_id: LogId,
    pub membership: MembershipConfig,
}

/// Ghost form of an [`EffectiveMembership`].
pub struct EffectiveMembershipV {
    pub log_id: LogId,
    pub membership: MembershipV,
}

impl View for EffectiveMembership {
    type V = EffectiveMembershipV;

    open spec fn view(&self) -> EffectiveMembershipV {
        EffectiveMembershipV { log_id: self.log_id, membership: self.membership@ }
    }
}

impl Clone for EffectiveMembership {
    fn clone(&self) -> (res: Self)
        ensures
            res@ == self@,
    {
        EffectiveMembership { log_id: self.log_id, membership: self.membership.clone() }
    }
}

/// What one log entry carries.
#[derive(Debug)]
pub enum EntryPayload {
    /// No effect; appended by a new leader to commit its term.
    Blank,
    /// A client request.
    Normal(RocksRequest),
    /// A membership change.
    Membership(MembershipConfig),
}

/// Ghost form of an [`EntryPayload`].
pub enum PayloadV {
    Blank,
    Normal(RequestV),
    Membership(MembershipV),
}

impl View for EntryPayload {
    type V = PayloadV;

    open spec fn view(&self) -> PayloadV {
        match self {
            EntryPayload::Blank => PayloadV::Blank,
            EntryPayload::Normal(r) => PayloadV::Normal(r@),
            EntryPayload::Membership(m) => PayloadV::Membership(m@),
        }
    }
}

impl Clone for EntryPayload {
    fn clone(&self) -> (res: Self)
        ensures
            res@ == self@,
    {
        match self {
            EntryPayload::Blank => EntryPayload::Blank,
            EntryPayload::Normal(r) => EntryPayload::Normal(r.clone()),
            EntryPayload::Membership(m) => EntryPayload::Membership(m.clone()),
        }
    }
}

/// One log entry: immutable once appended at an index by a leader; a
/// follower overwrites an index only when its resident entry has a
/// strictly smaller term.
#[derive(Debug)]
pub struct Entry {
    pub log_id: LogId,
    pub payload: EntryPayload,
}

/// Ghost form of an [`Entry`].
pub struct EntryV {
    pub log_id: LogId,
    pub payload: PayloadV,
}

impl View for Entry {
    type V = EntryV;

    open spec fn view(&self) -> EntryV {
        EntryV { log_id: self.log_id, payload: self.payload@ }
    }
}

impl Clone for Entry {
    fn clone(&self) -> (res: Self)
        ensures
            res@ == self@,
    {
        Entry { log_id: self.log_id, payload: self.payload.clone() }
    }
}

/// Metadata of a snapshot: the last log id it covers and its printable id.
#[derive(Debug)]
pub struct SnapshotMeta {
    pub last_log_id: Option<LogId>,
    pub snapshot_id: String,
}

/// Ghost form of a [`SnapshotMeta`].
pub struct SnapshotMetaV {
    pub last_log_id: Option<LogId>,
    pub snapshot_id: Seq<char>,
}

impl View for SnapshotMeta {
    type V = SnapshotMetaV;

    open spec fn view(&self) -> SnapshotMetaV {
        SnapshotMetaV { last_log_id: self.last_log_id, snapshot_id: self.snapshot_id@ }
    }
}

impl Clone for SnapshotMeta {
    fn clone(&self) -> (res: Self)
        ensures
            res@ == self@,
    {
        SnapshotMeta { last_log_id: self.last_log_id, snapshot_id: self.snapshot_id.clone() }
    }
}

/// What a failed storage operation was touching.
#[derive(Debug)]
pub enum ErrorSubject {
    Logs,
    StateMachine,
    HardState,
    Snapshot(SnapshotMeta),
    Store,
}

impl Clone for ErrorSubject {
    fn clone(&self) -> (res: Self)
        ensures
            res.matches_subject(*self),
    {
        match self {
            ErrorSubject::Logs => ErrorSubject::Logs,
            ErrorSubject::StateMachine => ErrorSubject::StateMachine,
            ErrorSubject::HardState => ErrorSubject::HardState,
            ErrorSubject::Snapshot(m) => ErrorSubject::Snapshot(m.clone()),
            ErrorSubject::Store => ErrorSubject::Store,
        }
    }
}

impl ErrorSubject {
    /// Same subject, compared through views (snapshot metadata by content).
    pub open spec fn matches_subject(self, other: ErrorSubject) -> bool {
        match (self, other) {
            (ErrorSubject::Logs, ErrorSubject::Logs) => true,
            (ErrorSubject::StateMachine, ErrorSubject::StateMachine) => true,
            (ErrorSubject::HardState, ErrorSubject::HardState) => true,
            (ErrorSubject::Snapshot(a), ErrorSubject::Snapshot(b)) => a@ == b@,
            (ErrorSubject::Store, ErrorSubject::Store) => true,
            _ => false,
        }
    }
}

/// What the failed operation was doing.
#[derive(Clone, Copy, PartialEq, Eq, Structural, Debug)]
pub enum ErrorVerb {
    Read,
    Write,
    Seek,
}

/// A storage fault, annotated with its subject and verb.
#[derive(Debug)]
pub struct StorageIOError {
    pub subject: ErrorSubject,
    pub verb: ErrorVerb,
}

impl Clone for StorageIOError {
    fn clone(&self) -> (res: Self)
        ensures
            res.subject.matches_subject(self.subject),
            res.verb == self.verb,
    {
        StorageIOError { subject: self.subject.clone(), verb: self.verb }
    }
}

/// Error surfaced by the storage contract.
#[derive(Debug)]
pub enum StorageError {
    IO { source: StorageIOError },
}

impl Clone for StorageError {
    fn clone(&self) -> (res: Self)
        ensures
            res.subject().matches_subject(self.subject()),
            res.verb() == self.verb(),
    {
        match self {
            StorageError::IO { source } => StorageError::IO { source: source.clone() },
        }
    }
}

impl StorageError {
    pub open spec fn subject(self) -> ErrorSubject {
        match self {
            StorageError::IO { source } => source.subject,
        }
    }

    pub open spec fn verb(self) -> ErrorVerb {
        match self {
            StorageError::IO { source } => source.verb,
        }
    }
}

/// The error a failed state-machine read is reported as.
pub fn sm_r_err() -> (r: StorageError)
    ensures
        r == (StorageError::IO {
            source: StorageIOError { subject: ErrorSubject::StateMachine, verb: ErrorVerb::Read },
        }),
{
    StorageError::IO {
        source: StorageIOError { subject: ErrorSubject::StateMachine, verb: ErrorVerb::Read },
    }
}

/// The error a failed state-machine write is reported as.
pub fn sm_w_err() -> (r: StorageError)
    ensures
        r == (StorageError::IO {
            source: StorageIOError { subject: ErrorSubject::StateMachine, verb: ErrorVerb::Write },
        }),
{
    StorageError::IO {
        source: StorageIOError { subject: ErrorSubject::StateMachine, verb: ErrorVerb::Write },
    }
}

/// The error a failed log read is reported as.
pub fn read_logs_err() -> (r: StorageError)
    ensures
        r == (StorageError::IO {
            source: StorageIOError { subject: ErrorSubject::Logs, verb: ErrorVerb::Read },
        }),
{
    StorageError::IO {
        source: StorageIOError { subject: ErrorSubject::Logs, verb: ErrorVerb::Read },
    }
}

} // verus!

verus! {

impl DeepView for MembershipConfig {
    type V = MembershipV;

    open spec fn deep_view(&self) -> MembershipV {
        self.view()
    }
}

impl DeepView for EffectiveMembership {
    type V = EffectiveMembershipV;

    open spec fn deep_view(&self) -> EffectiveMembershipV {
        self.view()
    }
}

impl DeepView for Entry {
    type V = EntryV;

    open spec fn deep_view(&self) -> EntryV {
        self.view()
    }
}

} // verus!

verus! {

/// A stored snapshot: its metadata and the serialized state machine.
#[derive(Debug)]
pub struct RocksSnapshot {
    pub meta: SnapshotMeta,
    /// The serialized state machine at the time of this snapshot.
    pub data: Vec<u8>,
}

/// Ghost form of a [`RocksSnapshot`].
pub struct SnapshotV {
    pub meta: SnapshotMetaV,
    pub data: Seq<u8>,
}

impl View for RocksSnapshot {
    type V = SnapshotV;

    open spec fn view(&self) -> SnapshotV {
        SnapshotV { meta: self.meta@, data: self.data@ }
    }
}

impl DeepView for RocksSnapshot {
    type V = SnapshotV;

    open spec fn deep_view(&self) -> SnapshotV {
        self.view()
    }
}

impl Clone for RocksSnapshot {
    fn clone(&self) -> (res: Self)
        ensures
            res@ == self@,
    {
        let res = RocksSnapshot { meta: self.meta.clone(), data: self.data.clone() };
        proof {
            assert(res.data@ =~= self.data@);
        }
        res
    }
}

/// What the log store derives about its extent: the last purged log id and
/// the last log id. With no entries resident, the last log id falls back to
/// the last purged one.
#[derive(Clone, Copy, PartialEq, Eq, Debug)]
pub struct LogState {
    pub last_purged_log_id: Option<LogId>,
    pub last_log_id: Option<LogId>,
}

/// What installing a snapshot changed.
#[derive(Clone, Copy, PartialEq, Eq, Debug)]
pub struct StateMachineChanges {
    pub last_applied: Option<LogId>,
    pub is_snapshot: bool,
}

} // verus!
