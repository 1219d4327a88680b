//! Leader-side replication progress for one follower: the acknowledged
//! (matching) log id, the exclusive upper bound of the binary-search window
//! used to probe for the divergence point, the outstanding replication
//! window, and the one-shot permission for a follower log reversion.

use vstd::prelude::*;
use crate::types::LogId;
use crate::types::opt_log_id_le;

verus! {

/// Engine-wide configuration consulted when updating progress.
#[derive(Clone, Copy, PartialEq, Eq, Structural, Debug)]
pub struct EngineConfig {
    /// Permits a follower's acknowledged log to regress; the per-follower
    /// one-shot flag grants the same, once.
    pub allow_log_reversion: bool,
}

/// The index right after an acknowledged log id; 0 when nothing is
/// acknowledged yet.
pub open spec fn matching_next(m: Option<LogId>) -> int {
    match m {
        Option::None => 0,
        Option::Some(l) => l.index + 1,
    }
}

/// An outstanding replication window to one follower, bounding pipeline
/// depth; the request id lets the engine discard stale acknowledgements.
#[derive(Clone, Copy, Debug)]
pub enum Inflight {
    /// Nothing outstanding.
    Idle,
    /// A single probe at `index`, looking for the divergence point.
    Probe { index: u64, request_id: u64 },
    /// Log entries after `prev`, up to index `last` inclusive.
    Logs { prev: Option<LogId>, last: u64, request_id: u64 },
    /// A snapshot transfer covering the log up to `snapshot_last`.
    Snapshot { snapshot_last: Option<LogId>, request_id: u64 },
}

impl Inflight {
    /// The window after an acknowledgement up to `upto`: a fully covered
    /// window closes, a partly covered log window shrinks to the rest.
    pub open spec fn spec_ack(self, upto: Option<LogId>) -> Inflight {
        match self {
            Inflight::Idle => Inflight::Idle,
            Inflight::Probe { .. } => Inflight::Idle,
            Inflight::Logs { prev, last, request_id } => if matching_next(upto) > last {
                Inflight::Idle
            } else {
                Inflight::Logs { prev: upto, last, request_id }
            },
            Inflight::Snapshot { snapshot_last, request_id } => if opt_log_id_le(
                snapshot_last,
                upto,
            ) {
                Inflight::Idle
            } else {
                Inflight::Snapshot { snapshot_last, request_id }
            },
        }
    }

    /// Records an acknowledgement up to `upto`.
    pub fn ack(&mut self, upto: &Option<LogId>)
        ensures
            *final(self) == old(self).spec_ack(*upto),
    {
        let next: Inflight = match *self {
            Inflight::Idle => Inflight::Idle,
            Inflight::Probe { .. } => Inflight::Idle,
            Inflight::Logs { prev: _, last, request_id } => {
                let covered: bool = match upto {
                    Option::None => false,
                    Option::Some(l) => l.index >= last,
                };
                if covered {
                    Inflight::Idle
                } else {
                    Inflight::Logs { prev: *upto, last, request_id }
                }
            },
            Inflight::Snapshot { snapshot_last, request_id } => {
                if crate::types::opt_le(&snapshot_last, upto) {
                    Inflight::Idle
                } else {
                    Inflight::Snapshot { snapshot_last, request_id }
                }
            },
        };
        *self = next;
    }

    /// Discards the window after a conflict response at `_conflict`: the
    /// rejected AppendEntries carried entries, so the window it opened is
    /// void whatever the reported index.
    pub fn conflict(&mut self, _conflict: u64)
        ensures
            *final(self) == Inflight::Idle,
    {
        *self = Inflight::Idle;
    }
}

/// Per-follower replication state held by the leader.
#[derive(Clone, Copy, Debug)]
pub struct ProgressEntry {
    /// Highest log id known to be replicated on the follower.
    pub matching: Option<LogId>,
    /// Exclusive upper bound of the binary-search window probed for the
    /// divergence point.
    pub searching_end: u64,
    /// The outstanding replication window.
    pub inflight: Inflight,
    /// One-shot permission for this follower's acknowledged log to regress.
    pub allow_log_reversion: bool,
}

impl ProgressEntry {
    /// The searching window always lies strictly above every acknowledged
    /// index: `searching_end > matching.index`.
    pub open spec fn wf(self) -> bool {
        matching_next(self.matching) <= self.searching_end
    }

    /// A fresh entry for a follower nothing is known about; the leader
    /// passes its own last log index + 1 as `end`.
    pub fn empty(end: u64) -> (r: ProgressEntry)
        ensures
            r == (ProgressEntry {
                matching: Option::<LogId>::None,
                searching_end: end,
                inflight: Inflight::Idle,
                allow_log_reversion: false,
            }),
            r.wf(),
    {
        ProgressEntry {
            matching: Option::None,
            searching_end: end,
            inflight: Inflight::Idle,
            allow_log_reversion: false,
        }
    }
}

/// The diagnostic of a halted engine: a follower claimed an acknowledged
/// entry is missing, and no log reversion was permitted. Commit progress
/// would be corrupted by continuing, so the engine must stop.
#[derive(Clone, Copy, Debug)]
pub struct LogicalSafetyFault {
    /// The first non-matching index the follower reported.
    pub conflict: u64,
    /// What the leader believed was acknowledged.
    pub matching: Option<LogId>,
}

/// Applies update operations to a [`ProgressEntry`] under the engine's
/// configuration.
#[derive(Clone, Copy, Debug)]
pub struct Updater {
    pub engine_config: EngineConfig,
    pub entry: ProgressEntry,
}

impl Updater {
    pub fn new(engine_config: &EngineConfig, entry: ProgressEntry) -> (u: Updater)
        ensures
            u == (Updater { engine_config: *engine_config, entry }),
    {
        Updater { engine_config: *engine_config, entry }
    }

    /// Hands the updated entry back to the engine.
    pub fn into_entry(self) -> (r: ProgressEntry)
        ensures
            r == self.entry,
    {
        self.entry
    }

    /// Records that the follower acknowledged the log up to `matching`.
    ///
    /// The acknowledged log id never goes backwards, and the searching
    /// window stays strictly above it.
    pub fn update_matching(&mut self, matching: Option<LogId>)
        requires
            old(self).entry.wf(),
            opt_log_id_le(old(self).entry.matching, matching),
            matching matches Option::Some(l) ==> l.index < u64::MAX,
        ensures
            final(self).engine_config == old(self).engine_config,
            final(self).entry.matching == matching,
            final(self).entry.inflight == old(self).entry.inflight.spec_ack(matching),
            final(self).entry.searching_end == if matching_next(matching) > old(
                self,
            ).entry.searching_end {
                matching_next(matching)
            } else {
                old(self).entry.searching_end as int
            },
            final(self).entry.allow_log_reversion == old(self).entry.allow_log_reversion,
            final(self).entry.wf(),
            opt_log_id_le(old(self).entry.matching, final(self).entry.matching),
    {
        self.entry.inflight.ack(&matching);
        self.entry.matching = matching;

        let matching_next_exec: u64 = match &self.entry.matching {
            Option::None => 0,
            Option::Some(l) => l.index + 1,
        };
        if matching_next_exec > self.entry.searching_end {
            self.entry.searching_end = matching_next_exec;
        }
    }

    /// Records that the follower rejected an AppendEntries at `conflict`,
    /// the first index on it that does not match the leader's log.
    ///
    /// A conflict at or above the searching window is stale and ignored; one
    /// inside it narrows the window. A conflict below the acknowledged index
    /// means the follower lost acknowledged entries: permitted (by the
    /// one-shot flag or the engine configuration) it restarts the search
    /// from nothing, consuming the one-shot flag; otherwise it is a fatal
    /// safety fault and the entry is left as it was.
    ///
    /// `has_payload` tells whether the rejected RPC carried log entries;
    /// only then had it opened an inflight window, which is discarded.
    pub fn update_conflicting(&mut self, conflict: u64, has_payload: bool) -> (r: Result<
        (),
        LogicalSafetyFault,
    >)
        requires
            old(self).entry.wf(),
        ensures
            final(self).engine_config == old(self).engine_config,
            final(self).entry.inflight == if has_payload {
                Inflight::Idle
            } else {
                old(self).entry.inflight
            },
            final(self).entry.wf(),
            // Stale: nothing besides the inflight window changes.
            conflict >= old(self).entry.searching_end ==> {
                &&& r is Ok
                &&& final(self).entry.matching == old(self).entry.matching
                &&& final(self).entry.searching_end == old(self).entry.searching_end
                &&& final(self).entry.allow_log_reversion == old(self).entry.allow_log_reversion
            },
            // Narrowing: the window shrinks, the acknowledged id stands.
            conflict < old(self).entry.searching_end && conflict >= matching_next(
                old(self).entry.matching,
            ) ==> {
                &&& r is Ok
                &&& final(self).entry.matching == old(self).entry.matching
                &&& final(self).entry.searching_end == conflict
                &&& final(self).entry.allow_log_reversion == old(self).entry.allow_log_reversion
            },
            // Reversion, permitted: restart from nothing, flag consumed.
            conflict < matching_next(old(self).entry.matching) && (old(
                self,
            ).entry.allow_log_reversion || old(self).engine_config.allow_log_reversion) ==> {
                &&& r is Ok
                &&& final(self).entry.matching is None
                &&& final(self).entry.searching_end == conflict
                &&& final(self).entry.allow_log_reversion == false
            },
            // Reversion, not permitted: the fault, with the entry untouched.
            conflict < matching_next(old(self).entry.matching) && !old(
                self,
            ).entry.allow_log_reversion && !old(self).engine_config.allow_log_reversion ==> {
                &&& r == Result::<(), LogicalSafetyFault>::Err(
                    LogicalSafetyFault { conflict, matching: old(self).entry.matching },
                )
                &&& final(self).entry.matching == old(self).entry.matching
                &&& final(self).entry.searching_end == old(self).entry.searching_end
                &&& final(self).entry.allow_log_reversion == old(self).entry.allow_log_reversion
            },
    {
        // A rejected heartbeat opened no window, so only a payload-carrying
        // rejection touches the inflight state.
        if has_payload {
            self.entry.inflight.conflict(conflict);
        }

        if conflict >= self.entry.searching_end {
            return Result::Ok(());
        }

        let matching_next_exec: u64 = match &self.entry.matching {
            Option::None => 0,
            Option::Some(l) => {
                if l.index == u64::MAX {
                    // wf puts searching_end above u64::MAX, which it cannot be.
                    assert(false);
                    0
                } else {
                    l.index + 1
                }
            },
        };

        if conflict < matching_next_exec {
            // The follower claims an acknowledged entry is gone.
            let allow_reset = self.entry.allow_log_reversion
                || self.engine_config.allow_log_reversion;
            if !allow_reset {
                return Result::Err(
                    LogicalSafetyFault { conflict, matching: self.entry.matching },
                );
            }
            self.entry.matching = Option::None;
            self.entry.allow_log_reversion = false;
        }

        self.entry.searching_end = conflict;
        Result::Ok(())
    }
}

} // verus!
