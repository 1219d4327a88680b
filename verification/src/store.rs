//! The storage contract in one place: the append-only log keyed by index,
//! the hard state, the last-purged log id, the snapshot counter and current
//! snapshot, and the state machine, with the operations a Raft engine
//! drives them through.

use vstd::prelude::*;
use crate::types::LogId;
use crate::types::Entry;
use crate::types::EntryV;
use crate::types::PayloadV;
use crate::types::RequestV;
use crate::types::HardState;
use crate::types::LogState;
use crate::types::RocksResponse;
use crate::types::RocksSnapshot;
use crate::types::SnapshotV;
use crate::types::SnapshotMeta;
use crate::types::StateMachineChanges;
use crate::types::StorageError;
use crate::types::StorageIOError;
use crate::types::ErrorSubject;
use crate::types::ErrorVerb;
use crate::types::EffectiveMembership;
use crate::types::EffectiveMembershipV;
use crate::types::opt_log_id_le;
use crate::sm::RocksStateMachine;
use crate::sm::SerializableRocksStateMachine;
use crate::sm::StateMachineV;
use crate::sm::kv_map;
use crate::sm::snap_enc;
use crate::sm::snap_dec;
use crate::sm::lemma_snapshot_round_trip;

verus! {

/// Ghost state of the machine as application sees it.
pub struct MachineState {
    pub applied: Option<LogId>,
    pub membership: Option<EffectiveMembershipV>,
    pub kv: Map<Seq<char>, Seq<char>>,
}

/// Applying one entry: the last-applied id advances first, then the
/// payload takes effect; the response carries the value written, if any.
pub open spec fn apply_entry(st: MachineState, e: EntryV) -> (MachineState, Option<Seq<char>>) {
    match e.payload {
        PayloadV::Blank => (
            MachineState {
                applied: Option::Some(e.log_id),
                membership: st.membership,
                kv: st.kv,
            },
            Option::None,
        ),
        PayloadV::Normal(RequestV::Put { key, value }) => (
            MachineState {
                applied: Option::Some(e.log_id),
                membership: st.membership,
                kv: st.kv.insert(key, value),
            },
            Option::Some(value),
        ),
        PayloadV::Membership(m) => (
            MachineState {
                applied: Option::Some(e.log_id),
                membership: Option::Some(
                    EffectiveMembershipV { log_id: e.log_id, membership: m },
                ),
                kv: st.kv,
            },
            Option::None,
        ),
    }
}

/// Applying a batch of entries in index order.
pub open spec fn apply_entries(st: MachineState, es: Seq<EntryV>) -> (
    MachineState,
    Seq<Option<Seq<char>>>,
)
    decreases es.len(),
{
    if es.len() == 0 {
        (st, Seq::empty())
    } else {
        let prev = apply_entries(st, es.drop_last());
        let step = apply_entry(prev.0, es.last());
        (step.0, prev.1.push(step.1))
    }
}

/// Ghost view of a response batch.
pub open spec fn resp_view(s: Seq<RocksResponse>) -> Seq<Option<Seq<char>>> {
    s.map_values(|x: RocksResponse| x@)
}

/// The order on optional log ids is transitive.
pub proof fn lemma_opt_le_trans(a: Option<LogId>, b: Option<LogId>, c: Option<LogId>)
    requires
        opt_log_id_le(a, b),
        opt_log_id_le(b, c),
    ensures
        opt_log_id_le(a, c),
{
}

/// The store behind the four logical partitions: meta (hard state, last
/// purged id, snapshot counter, current snapshot), the log, and the state
/// machine.
#[derive(Debug)]
pub struct RocksStore {
    hard_state: Option<HardState>,
    last_purged_log_id: Option<LogId>,
    snapshot_index: u64,
    current_snapshot: Option<RocksSnapshot>,
    logs: Vec<Entry>,
    state_machine: RocksStateMachine,
}

impl RocksStore {
    /// The persisted hard state.
    pub closed spec fn hard(self) -> Option<HardState> {
        self.hard_state
    }

    /// The last purged log id.
    pub closed spec fn purged(self) -> Option<LogId> {
        self.last_purged_log_id
    }

    /// The snapshot counter.
    pub closed spec fn snap_index(self) -> u64 {
        self.snapshot_index
    }

    /// The current snapshot record.
    pub closed spec fn snapshot_dv(self) -> Option<SnapshotV> {
        self.current_snapshot.deep_view()
    }

    /// The resident log entries, first index lowest.
    pub closed spec fn log(self) -> Seq<EntryV> {
        self.logs.deep_view()
    }

    /// The state machine.
    pub closed spec fn sm(self) -> RocksStateMachine {
        self.state_machine
    }

    /// The machine's ghost state.
    pub open spec fn machine(self) -> MachineState {
        MachineState {
            applied: self.sm().applied(),
            membership: self.sm().membership_dv(),
            kv: self.sm().kv(),
        }
    }

    /// The serializable image a snapshot of this store carries.
    pub open spec fn machine_image(self) -> StateMachineV {
        StateMachineV {
            last_applied_log: self.sm().applied(),
            last_membership: self.sm().membership_dv(),
            data: self.sm().pairs(),
        }
    }

    /// The index right after the purged prefix; the log starts there.
    /// Index 0 is reserved, so an unpurged store starts at 1.
    pub open spec fn first_index(self) -> int {
        match self.purged() {
            Option::None => 1,
            Option::Some(l) => l.index + 1,
        }
    }

    /// The last log id; with no entries resident it falls back to the last
    /// purged log id.
    pub open spec fn last_log_id(self) -> Option<LogId> {
        if self.log().len() > 0 {
            Option::Some(self.log().last().log_id)
        } else {
            self.purged()
        }
    }

    /// The index of the last log entry, 0 when the store is empty.
    pub open spec fn last_index(self) -> int {
        match self.last_log_id() {
            Option::None => 0,
            Option::Some(l) => l.index as int,
        }
    }

    /// Well-formedness: the log is contiguous starting right after the
    /// purged prefix, log ids grow along it, the purged id sits below it,
    /// the machine's keys are unique, and — purge safety — nothing is
    /// purged beyond the last applied log id.
    pub open spec fn wf(self) -> bool {
        &&& self.sm().wf()
        &&& forall|k: int| 0 <= k < self.log().len() ==> (#[trigger] self.log()[k]).log_id.index
            == self.first_index() + k
        &&& forall|j: int, k: int|
            0 <= j < k < self.log().len() ==> (#[trigger] self.log()[j]).log_id.spec_le(
                (#[trigger] self.log()[k]).log_id,
            )
        &&& match self.purged() {
            Option::None => true,
            Option::Some(p) => {
                &&& p.index >= 1
                &&& p.index < u64::MAX
                &&& (self.log().len() > 0 ==> p.spec_le(self.log()[0].log_id))
            },
        }
        &&& opt_log_id_le(self.purged(), self.machine().applied)
    }

    /// A fresh, empty store.
    pub fn new() -> (r: RocksStore)
        ensures
            r.wf(),
            r.hard() is None,
            r.purged() is None,
            r.snap_index() == 0,
            r.snapshot_dv() is None,
            r.log() == Seq::<EntryV>::empty(),
            r.machine().applied is None,
            r.machine().membership is None,
            r.machine().kv == Map::<Seq<char>, Seq<char>>::empty(),
    {
        let r = RocksStore {
            hard_state: Option::None,
            last_purged_log_id: Option::None,
            snapshot_index: 0,
            current_snapshot: Option::None,
            logs: Vec::new(),
            state_machine: RocksStateMachine::new(),
        };
        proof {
            assert(r.log() =~= Seq::<EntryV>::empty());
        }
        r
    }

    /// Persists the hard state; it must be durable before any outbound
    /// vote or append bound to its term.
    pub fn save_hard_state(&mut self, hs: &HardState) -> (r: Result<(), StorageError>)
        requires
            old(self).wf(),
        ensures
            r is Ok,
            final(self).wf(),
            final(self).hard() == Option::Some(*hs),
            final(self).purged() == old(self).purged(),
            final(self).snap_index() == old(self).snap_index(),
            final(self).snapshot_dv() == old(self).snapshot_dv(),
            final(self).log() == old(self).log(),
            final(self).machine() == old(self).machine(),
    {
        self.hard_state = Option::Some(*hs);
        Result::Ok(())
    }

    /// Reads the persisted hard state back.
    pub fn read_hard_state(&self) -> (r: Result<Option<HardState>, StorageError>)
        ensures
            r == Result::<Option<HardState>, StorageError>::Ok(self.hard()),
    {
        Result::Ok(self.hard_state)
    }

    /// The log's extent: last purged and last log id, the latter falling
    /// back to the former when no entries are resident.
    pub fn get_log_state(&self) -> (r: Result<LogState, StorageError>)
        ensures
            r == Result::<LogState, StorageError>::Ok(
                LogState {
                    last_purged_log_id: self.purged(),
                    last_log_id: self.last_log_id(),
                },
            ),
    {
        let last_log_id = if self.logs.len() > 0 {
            Option::Some(self.logs[self.logs.len() - 1].log_id)
        } else {
            self.last_purged_log_id
        };
        Result::Ok(LogState { last_purged_log_id: self.last_purged_log_id, last_log_id })
    }

    /// The machine's last applied log id and effective membership.
    pub fn last_applied_state(&self) -> (r: Result<
        (Option<LogId>, Option<EffectiveMembership>),
        StorageError,
    >)
        ensures
            r is Ok,
            r matches Result::Ok(p) ==> p.0 == self.machine().applied && p.1.deep_view()
                == self.machine().membership,
    {
        let applied = match self.state_machine.get_last_applied_log() {
            Result::Ok(a) => a,
            Result::Err(e) => {
                return Result::Err(e);
            },
        };
        let membership = match self.state_machine.get_last_membership() {
            Result::Ok(m) => m,
            Result::Err(e) => {
                return Result::Err(e);
            },
        };
        Result::Ok((applied, membership))
    }

    /// Read access to the state machine, for application reads.
    pub fn state_machine(&self) -> (r: &RocksStateMachine)
        ensures
            *r == self.sm(),
    {
        &self.state_machine
    }

    /// An empty buffer to receive a snapshot into.
    pub fn begin_receiving_snapshot(&self) -> (r: Result<Vec<u8>, StorageError>)
        ensures
            r matches Result::Ok(v) && v@ == Seq::<u8>::empty(),
    {
        Result::Ok(Vec::new())
    }

    /// The current snapshot record, if one is persisted.
    pub fn get_current_snapshot(&self) -> (r: Result<Option<RocksSnapshot>, StorageError>)
        ensures
            r is Ok,
            r matches Result::Ok(s) ==> s.deep_view() == self.snapshot_dv(),
    {
        match &self.current_snapshot {
            Option::None => Result::Ok(Option::None),
            Option::Some(s) => Result::Ok(Option::Some(s.clone())),
        }
    }
}

} // verus!

verus! {

impl RocksStore {
    /// The first resident index, as a machine integer.
    fn first_index_u64(&self) -> (r: u64)
        requires
            self.wf(),
        ensures
            r == self.first_index(),
    {
        match &self.last_purged_log_id {
            Option::None => 1,
            Option::Some(l) => l.index + 1,
        }
    }

    /// Appends a batch to the log. The batch must continue the log: its
    /// indices are `last_index + 1 ..`, and its log ids do not go down,
    /// neither inside the batch nor against what the log already holds.
    pub fn append_to_log(&mut self, entries: &Vec<Entry>) -> (r: Result<(), StorageError>)
        requires
            old(self).wf(),
            forall|k: int| 0 <= k < entries.deep_view().len() ==> (#[trigger] entries.deep_view()[
                k
            ]).log_id.index == old(self).last_index() + 1 + k,
            entries.deep_view().len() > 0 ==> opt_log_id_le(
                old(self).last_log_id(),
                Option::Some(entries.deep_view()[0].log_id),
            ),
            forall|j: int, k: int|
                0 <= j < k < entries.deep_view().len() ==> (#[trigger] entries.deep_view()[
                    j
                ]).log_id.spec_le((#[trigger] entries.deep_view()[k]).log_id),
        ensures
            r is Ok,
            final(self).wf(),
            final(self).log() == old(self).log() + entries.deep_view(),
            final(self).hard() == old(self).hard(),
            final(self).purged() == old(self).purged(),
            final(self).snap_index() == old(self).snap_index(),
            final(self).snapshot_dv() == old(self).snapshot_dv(),
            final(self).machine() == old(self).machine(),
            final(self).sm() == old(self).sm(),
    {
        let n = entries.len();
        let mut i: usize = 0;
        while i < n
            invariant
                n == entries@.len(),
                i <= n,
                self.log() == old(self).log() + entries.deep_view().take(i as int),
                self.hard() == old(self).hard(),
                self.purged() == old(self).purged(),
                self.snap_index() == old(self).snap_index(),
                self.snapshot_dv() == old(self).snapshot_dv(),
                self.sm() == old(self).sm(),
            decreases n - i,
        {
            let ghost prevec = self.logs@;
            let ghost prelog = self.log();
            self.logs.push(entries[i].clone());
            proof {
                assert forall|k: int| 0 <= k < prelog.len() implies self.log()[k] == prelog[k] by {
                    assert(self.logs@[k] == prevec[k]);
                }
                assert(entries.deep_view()[i as int] == entries@[i as int]@);
                assert(self.log()[prelog.len() as int] == entries.deep_view()[i as int]);
                let ghost es = entries.deep_view();
                assert(self.log() =~= prelog.push(es[i as int]));
                assert(es.take(i + 1) =~= es.take(i as int).push(es[i as int]));
                assert((old(self).log() + es.take(i as int)).push(es[i as int]) =~= old(
                    self,
                ).log() + es.take(i + 1));
                assert(self.log() == old(self).log() + entries.deep_view().take(i + 1));
            }
            i += 1;
        }
        proof {
            let es = entries.deep_view();
            assert(es.take(n as int) =~= es);
            let newlog = final(self).log();
            let oldlen = old(self).log().len() as int;
            assert forall|k: int| 0 <= k < newlog.len() implies (#[trigger] newlog[k]).log_id.index
                == final(self).first_index() + k by {
                if k >= oldlen {
                    assert(newlog[k] == es[k - oldlen]);
                }
            }
            assert forall|j: int, k: int|
                0 <= j < k < newlog.len() implies (#[trigger] newlog[j]).log_id.spec_le(
                (#[trigger] newlog[k]).log_id) by {
                if j < oldlen && k >= oldlen {
                    assert(newlog[j] == old(self).log()[j]);
                    assert(newlog[k] == es[k - oldlen]);
                    assert(old(self).log()[j].log_id.spec_le(old(self).log()[oldlen - 1].log_id));
                    assert(opt_log_id_le(old(self).last_log_id(), Option::Some(es[0].log_id)));
                    if 0 < k - oldlen {
                        assert(es[0].log_id.spec_le(es[k - oldlen].log_id));
                    }
                }
            }
        }
        Result::Ok(())
    }

    /// The entries of the log whose indices fall in `[start, end)`.
    pub open spec fn log_range(self, start: int, end: int) -> Seq<EntryV> {
        let first = self.first_index();
        let lo = if start > first {
            start
        } else {
            first
        };
        let hi = if end < first + self.log().len() {
            end
        } else {
            first + self.log().len()
        };
        if lo < hi {
            self.log().subrange(lo - first, hi - first)
        } else {
            Seq::empty()
        }
    }

    /// Returns the resident entries with indices in the half-open range
    /// `[start, end)`, in index order.
    pub fn try_get_log_entries(&self, start: u64, end: u64) -> (r: Result<Vec<Entry>, StorageError>)
        requires
            self.wf(),
        ensures
            r is Ok,
            r matches Result::Ok(v) ==> v.deep_view() == self.log_range(start as int, end as int),
    {
        let first = self.first_index_u64();
        let len = self.logs.len();
        let start_pos: usize = if start <= first {
            0
        } else {
            let d = start - first;
            if d > len as u64 {
                len
            } else {
                d as usize
            }
        };
        let end_pos: usize = if end <= first {
            0
        } else {
            let d = end - first;
            if d > len as u64 {
                len
            } else {
                d as usize
            }
        };
        let mut v: Vec<Entry> = Vec::new();
        let mut i: usize = start_pos;
        if start_pos < end_pos {
            while i < end_pos
                invariant
                    start_pos <= i <= end_pos <= self.logs@.len(),
                    v.deep_view() =~= self.log().subrange(start_pos as int, i as int),
                decreases end_pos - i,
            {
                let ghost prevec = v@;
                let ghost prev = v.deep_view();
                v.push(self.logs[i].clone());
                proof {
                    assert forall|k: int| 0 <= k < prev.len() implies v.deep_view()[k] == prev[k]
                    by {
                        assert(v@[k] == prevec[k]);
                    }
                    assert(v.deep_view()[prev.len() as int] == self.logs@[i as int]@);
                    assert(self.log()[i as int] == self.logs@[i as int]@);
                    assert(v.deep_view() =~= self.log().subrange(start_pos as int, i + 1));
                }
                i += 1;
            }
        }
        proof {
            if start_pos < end_pos {
                assert(v.deep_view() =~= self.log_range(start as int, end as int));
            } else {
                assert(v.deep_view() =~= Seq::<EntryV>::empty());
                assert(self.log_range(start as int, end as int) =~= Seq::<EntryV>::empty());
            }
        }
        Result::Ok(v)
    }

    /// Removes every entry with index at or above `log_id.index`: the
    /// follower found those entries conflicting with the leader's log.
    pub fn delete_conflict_logs_since(&mut self, log_id: LogId) -> (r: Result<(), StorageError>)
        requires
            old(self).wf(),
            log_id.index >= old(self).first_index(),
        ensures
            r is Ok,
            final(self).wf(),
            final(self).log() == old(self).log().take(
                if log_id.index - old(self).first_index() <= old(self).log().len() {
                    log_id.index - old(self).first_index()
                } else {
                    old(self).log().len() as int
                },
            ),
            final(self).hard() == old(self).hard(),
            final(self).purged() == old(self).purged(),
            final(self).snap_index() == old(self).snap_index(),
            final(self).snapshot_dv() == old(self).snapshot_dv(),
            final(self).machine() == old(self).machine(),
            final(self).sm() == old(self).sm(),
    {
        let first = self.first_index_u64();
        let len = self.logs.len();
        let d = log_id.index - first;
        if d < len as u64 {
            let ghost oldlog = self.log();
            self.logs.truncate(d as usize);
            proof {
                assert(self.log() =~= oldlog.take(d as int));
            }
        } else {
            proof {
                assert(self.log() =~= self.log().take(self.log().len() as int));
            }
        }
        Result::Ok(())
    }

    /// Purges the log up to and including `log_id`, recording it as the
    /// last purged log id. Only a log id the store holds (or the purge
    /// point already recorded) at or below the applied state may be
    /// purged, so purge safety — `last_purged ≤ last_applied` — is kept.
    pub fn purge_logs_upto(&mut self, log_id: LogId) -> (r: Result<(), StorageError>)
        requires
            old(self).wf(),
            opt_log_id_le(old(self).purged(), Option::Some(log_id)),
            opt_log_id_le(Option::Some(log_id), old(self).machine().applied),
            log_id.index < u64::MAX,
            log_id.index >= 1,
            old(self).purged() == Option::Some(log_id) || (old(self).first_index()
                <= log_id.index < old(self).first_index() + old(self).log().len() && old(
                self,
            ).log()[log_id.index - old(self).first_index()].log_id == log_id),
        ensures
            r is Ok,
            final(self).wf(),
            final(self).purged() == Option::Some(log_id),
            final(self).log() == old(self).log().skip(
                if log_id.index + 1 - old(self).first_index() <= old(self).log().len() {
                    log_id.index + 1 - old(self).first_index()
                } else {
                    old(self).log().len() as int
                },
            ),
            final(self).hard() == old(self).hard(),
            final(self).snap_index() == old(self).snap_index(),
            final(self).snapshot_dv() == old(self).snapshot_dv(),
            final(self).machine() == old(self).machine(),
            final(self).sm() == old(self).sm(),
    {
        let first = self.first_index_u64();
        let len = self.logs.len();
        // Record the purge point first, then drop the prefix; recovery of a
        // durable realization must tolerate the gap between the two steps.
        self.last_purged_log_id = Option::Some(log_id);
        let d64 = log_id.index + 1 - first;
        let d: usize = if d64 > len as u64 {
            len
        } else {
            d64 as usize
        };
        let ghost oldlog = self.log();
        let tail = self.logs.split_off(d);
        self.logs = tail;
        proof {
            assert(self.log() =~= oldlog.skip(d as int));
        }
        Result::Ok(())
    }
}

} // verus!

verus! {

/// The decimal digits of `n`, most significant first.
pub open spec fn dec_digits(n: u64) -> Seq<char>
    decreases n,
{
    if n < 10 {
        seq![digit_char(n)]
    } else {
        dec_digits((n / 10) as u64).push(digit_char((n % 10) as u64))
    }
}

/// The character of one decimal digit.
pub open spec fn digit_char(d: u64) -> char {
    if d == 0 {
        '0'
    } else if d == 1 {
        '1'
    } else if d == 2 {
        '2'
    } else if d == 3 {
        '3'
    } else if d == 4 {
        '4'
    } else if d == 5 {
        '5'
    } else if d == 6 {
        '6'
    } else if d == 7 {
        '7'
    } else if d == 8 {
        '8'
    } else {
        '9'
    }
}

/// The printable id of a snapshot: `{term}-{index}-{counter}` after the
/// last applied log id, or `--{counter}` when nothing was applied.
pub open spec fn snapshot_id_chars(applied: Option<LogId>, counter: u64) -> Seq<char> {
    match applied {
        Option::Some(l) => dec_digits(l.term) + seq!['-'] + dec_digits(l.index) + seq!['-']
            + dec_digits(counter),
        Option::None => seq!['-', '-'] + dec_digits(counter),
    }
}

/// Relies on `format!` with `u64`'s `Display`: the decimal digits of each
/// number, joined with `-`.
#[verifier::external_body]
fn fmt_snapshot_id(term: u64, index: u64, counter: u64) -> (r: String)
    ensures
        r@ == dec_digits(term) + seq!['-'] + dec_digits(index) + seq!['-'] + dec_digits(counter),
{
    format!("{}-{}-{}", term, index, counter)
}

/// Relies on `format!` with `u64`'s `Display`: the decimal digits of the
/// counter after the two dashes of an empty machine's snapshot id.
#[verifier::external_body]
fn fmt_snapshot_id_empty(counter: u64) -> (r: String)
    ensures
        r@ == seq!['-', '-'] + dec_digits(counter),
{
    format!("--{}", counter)
}

impl RocksStore {
    /// Applies a batch of committed entries to the state machine in index
    /// order, advancing the last-applied id before each payload takes
    /// effect; returns one response per entry. The last-applied log id
    /// never decreases.
    #[verifier::rlimit(100)]
    pub fn apply_to_state_machine(&mut self, entries: &Vec<Entry>) -> (r: Result<
        Vec<RocksResponse>,
        StorageError,
    >)
        requires
            old(self).wf(),
            entries.deep_view().len() > 0 ==> opt_log_id_le(
                old(self).machine().applied,
                Option::Some(entries.deep_view()[0].log_id),
            ),
            forall|j: int, k: int|
                0 <= j < k < entries.deep_view().len() ==> (#[trigger] entries.deep_view()[
                    j
                ]).log_id.spec_le((#[trigger] entries.deep_view()[k]).log_id),
        ensures
            r is Ok,
            final(self).wf(),
            r matches Result::Ok(v) ==> {
                &&& final(self).machine() == apply_entries(
                    old(self).machine(),
                    entries.deep_view(),
                ).0
                &&& resp_view(v@) == apply_entries(old(self).machine(), entries.deep_view()).1
            },
            final(self).log() == old(self).log(),
            final(self).purged() == old(self).purged(),
            final(self).hard() == old(self).hard(),
            final(self).snap_index() == old(self).snap_index(),
            final(self).snapshot_dv() == old(self).snapshot_dv(),
            opt_log_id_le(old(self).machine().applied, final(self).machine().applied),
    {
        let mut res: Vec<RocksResponse> = Vec::new();
        let n = entries.len();
        let mut i: usize = 0;
        while i < n
            invariant
                n == entries@.len(),
                i <= n,
                self.sm().wf(),
                self.machine() == apply_entries(
                    old(self).machine(),
                    entries.deep_view().take(i as int),
                ).0,
                resp_view(res@) == apply_entries(
                    old(self).machine(),
                    entries.deep_view().take(i as int),
                ).1,
                i > 0 ==> self.machine().applied == Option::Some(
                    entries.deep_view()[i - 1].log_id,
                ),
                i == 0 ==> self.machine().applied == old(self).machine().applied,
                opt_log_id_le(old(self).machine().applied, self.machine().applied),
                entries.deep_view().len() > 0 ==> opt_log_id_le(
                    old(self).machine().applied,
                    Option::Some(entries.deep_view()[0].log_id),
                ),
                forall|j: int, k: int|
                    0 <= j < k < entries.deep_view().len() ==> (#[trigger] entries.deep_view()[
                        j
                    ]).log_id.spec_le((#[trigger] entries.deep_view()[k]).log_id),
                self.log() == old(self).log(),
                self.purged() == old(self).purged(),
                self.hard() == old(self).hard(),
                self.snap_index() == old(self).snap_index(),
                self.snapshot_dv() == old(self).snapshot_dv(),
            decreases n - i,
        {
            let e = &entries[i];
            proof {
                assert(entries.deep_view()[i as int] == entries@[i as int]@);
                let ghost k: int = i as int;
                if i > 0 {
                    assert(entries.deep_view()[k - 1].log_id.spec_le(
                        entries.deep_view()[k].log_id,
                    ));
                }
                assert(opt_log_id_le(self.sm().applied(), Option::Some(entries@[i as int].log_id)));
                lemma_opt_le_trans(
                    old(self).machine().applied,
                    self.machine().applied,
                    Option::Some(entries.deep_view()[k].log_id),
                );
            }
            match self.state_machine.set_last_applied_log(e.log_id) {
                Result::Ok(()) => {},
                Result::Err(e2) => {
                    proof {
                        assert(false);
                    }
                    return Result::Err(e2);
                },
            }
            let ghost prevres = res@;
            match &e.payload {
                crate::types::EntryPayload::Blank => {
                    res.push(RocksResponse { value: Option::None });
                },
                crate::types::EntryPayload::Normal(req) => match req {
                    crate::types::RocksRequest::Put { key, value } => {
                        match self.state_machine.insert(key.clone(), value.clone()) {
                            Result::Ok(()) => {},
                            Result::Err(e2) => {
                                proof {
                                    assert(false);
                                }
                                return Result::Err(e2);
                            },
                        }
                        res.push(RocksResponse { value: Option::Some(value.clone()) });
                    },
                },
                crate::types::EntryPayload::Membership(mem) => {
                    match self.state_machine.set_last_membership(
                        EffectiveMembership { log_id: e.log_id, membership: mem.clone() },
                    ) {
                        Result::Ok(()) => {},
                        Result::Err(e2) => {
                            proof {
                                assert(false);
                            }
                            return Result::Err(e2);
                        },
                    }
                    res.push(RocksResponse { value: Option::None });
                },
            }
            proof {
                let es = entries.deep_view();
                assert(es.take(i + 1).drop_last() =~= es.take(i as int));
                assert(es.take(i + 1).last() == es[i as int]);
                assert forall|k: int| 0 <= k < prevres.len() implies resp_view(res@)[k]
                    == resp_view(prevres)[k] by {
                    assert(res@[k] == prevres[k]);
                }
                assert(resp_view(res@) =~= resp_view(prevres).push(res@.last()@));
            }
            i += 1;
        }
        proof {
            assert(entries.deep_view().take(n as int) =~= entries.deep_view());
            lemma_opt_le_trans(
                self.purged(),
                old(self).machine().applied,
                self.machine().applied,
            );
        }
        Result::Ok(res)
    }

    /// Builds a snapshot of the state machine: its serialized image, a
    /// fresh monotonically increasing snapshot counter, and the printable
    /// id; the record is stored as the current snapshot. The payload is
    /// exactly what decoding gives back.
    #[verifier::rlimit(100)]
    pub fn build_snapshot(&mut self) -> (r: Result<RocksSnapshot, StorageError>)
        requires
            old(self).wf(),
            old(self).snap_index() < u64::MAX,
        ensures
            r is Ok,
            final(self).wf(),
            final(self).snap_index() == old(self).snap_index() + 1,
            final(self).log() == old(self).log(),
            final(self).purged() == old(self).purged(),
            final(self).hard() == old(self).hard(),
            final(self).machine() == old(self).machine(),
            final(self).sm() == old(self).sm(),
            r matches Result::Ok(s) ==> {
                &&& s@.data == snap_enc(old(self).machine_image())
                &&& snap_dec(s@.data) == Option::Some(old(self).machine_image())
                &&& s@.meta.last_log_id == old(self).machine().applied
                &&& s@.meta.snapshot_id == snapshot_id_chars(
                    old(self).machine().applied,
                    (old(self).snap_index() + 1) as u64,
                )
                &&& final(self).snapshot_dv() == Option::Some(s@)
            },
    {
        let image = self.state_machine.to_serializable();
        let data = image.to_bytes();
        proof {
            assert(image@ == self.machine_image());
            lemma_snapshot_round_trip(image@);
        }
        self.snapshot_index = self.snapshot_index + 1;
        let snapshot_id = match &image.last_applied_log {
            Option::Some(l) => fmt_snapshot_id(l.term, l.index, self.snapshot_index),
            Option::None => fmt_snapshot_id_empty(self.snapshot_index),
        };
        let meta = SnapshotMeta { last_log_id: image.last_applied_log, snapshot_id };
        let snapshot = RocksSnapshot { meta, data };
        self.current_snapshot = Option::Some(snapshot.clone());
        Result::Ok(snapshot)
    }

    /// Installs a snapshot: decodes the payload, atomically replaces the
    /// machine's contents from it (the last-applied id and membership come
    /// from the payload, not from the transport metadata), and persists
    /// the record as the current snapshot. Fails exactly on bytes no
    /// machine image encodes to, as a snapshot read fault.
    pub fn install_snapshot(&mut self, meta: &SnapshotMeta, data: Vec<u8>) -> (r: Result<
        StateMachineChanges,
        StorageError,
    >)
        requires
            old(self).wf(),
            snap_dec(data@) matches Option::Some(sv) ==> opt_log_id_le(
                old(self).machine().applied,
                sv.last_applied_log,
            ),
        ensures
            r is Ok <==> snap_dec(data@) is Some,
            final(self).wf(),
            final(self).log() == old(self).log(),
            final(self).purged() == old(self).purged(),
            final(self).hard() == old(self).hard(),
            final(self).snap_index() == old(self).snap_index(),
            r matches Result::Ok(c) ==> {
                &&& snap_dec(data@) matches Option::Some(sv) && {
                    &&& final(self).machine().applied == sv.last_applied_log
                    &&& final(self).machine().membership == sv.last_membership
                    &&& final(self).machine().kv == kv_map(sv.data)
                }
                &&& c == (StateMachineChanges { last_applied: meta.last_log_id, is_snapshot: true })
                &&& final(self).snapshot_dv() matches Option::Some(s) && s.meta == meta@ && s.data
                    == data@
            },
            r matches Result::Err(e) ==> {
                &&& e.subject().matches_subject(ErrorSubject::Snapshot(*meta))
                &&& e.verb() == ErrorVerb::Read
                &&& final(self).machine() == old(self).machine()
                &&& final(self).snapshot_dv() == old(self).snapshot_dv()
            },
            opt_log_id_le(old(self).machine().applied, final(self).machine().applied),
    {
        let image = match SerializableRocksStateMachine::from_bytes(&data) {
            Option::None => {
                return Result::Err(
                    StorageError::IO {
                        source: StorageIOError {
                            subject: ErrorSubject::Snapshot(meta.clone()),
                            verb: ErrorVerb::Read,
                        },
                    },
                );
            },
            Option::Some(x) => x,
        };
        let machine = match RocksStateMachine::from_serializable(image) {
            Result::Ok(m) => m,
            Result::Err(e) => {
                proof {
                    assert(false);
                }
                return Result::Err(e);
            },
        };
        self.state_machine = machine;
        let snapshot = RocksSnapshot { meta: meta.clone(), data };
        self.current_snapshot = Option::Some(snapshot);
        Result::Ok(StateMachineChanges { last_applied: meta.last_log_id, is_snapshot: true })
    }
}

} // verus!

verus! {

impl RocksStore {
    /// Appending a batch and reading its index range back gives exactly
    /// the batch: `append(E); try_get(E.range)` returns `E`.
    pub proof fn lemma_append_then_get(pre: RocksStore, post: RocksStore, es: Seq<EntryV>)
        requires
            pre.wf(),
            es.len() > 0,
            forall|k: int| 0 <= k < es.len() ==> (#[trigger] es[k]).log_id.index == pre.last_index()
                + 1 + k,
            opt_log_id_le(pre.last_log_id(), Option::Some(es[0].log_id)),
            post.wf(),
            post.log() == pre.log() + es,
            post.purged() == pre.purged(),
        ensures
            post.log_range(es[0].log_id.index as int, es.last().log_id.index + 1) == es,
    {
        let first = post.first_index();
        let start = es[0].log_id.index as int;
        let end = es.last().log_id.index + 1;
        assert(start == pre.last_index() + 1);
        assert(end == start + es.len());
        assert(pre.log().len() == start - first) by {
            if pre.log().len() > 0 {
                assert(pre.log()[pre.log().len() - 1].log_id.index == first + pre.log().len() - 1);
            }
        }
        assert(post.log_range(start, end) =~= es) by {
            assert(post.log().len() == pre.log().len() + es.len());
            assert forall|k: int| 0 <= k < es.len() implies post.log().subrange(
                start - first,
                end - first,
            )[k] == es[k] by {
                assert(post.log()[start - first + k] == es[k]);
            }
        }
    }
}

} // verus!

verus! {

impl RocksStore {
    /// The log holds an entry at index `i`.
    pub open spec fn has_index(self, i: int) -> bool {
        self.first_index() <= i < self.first_index() + self.log().len()
    }

    /// The resident entry at index `i`.
    pub open spec fn entry_at(self, i: int) -> EntryV
        recommends
            self.has_index(i),
    {
        self.log()[i - self.first_index()]
    }
}

} // verus!
