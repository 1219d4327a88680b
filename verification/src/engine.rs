//! The engine's pure decisions: granting votes, reconciling a follower's
//! log with an AppendEntries request, and advancing the commit index from
//! the followers' acknowledged indices. The surrounding loop — timers,
//! RPC transport, retries — lives outside the library and hands these
//! functions plain values.

use vstd::prelude::*;
use crate::types::LogId;
use crate::types::Entry;
use crate::types::HardState;
use crate::types::RocksNodeId;
use crate::types::StorageError;
use crate::types::opt_log_id_le;
use crate::store::RocksStore;

verus! {

/// A request for a vote in `term`.
#[derive(Clone, Copy, PartialEq, Eq, Debug)]
pub struct VoteRequest {
    pub term: u64,
    pub candidate_id: RocksNodeId,
    pub last_log_id: Option<LogId>,
}

/// The answer to a [`VoteRequest`].
#[derive(Clone, Copy, PartialEq, Eq, Debug)]
pub struct VoteResponse {
    pub term: u64,
    pub vote_granted: bool,
}

/// The vote decision: a stale term is refused outright; otherwise the
/// local term catches up (forgetting any vote cast in an older term), and
/// the vote is granted exactly when no other candidate holds this term's
/// vote and the candidate's log is at least as up to date as the local
/// one.
pub open spec fn vote_decision(
    hs: HardState,
    local_last: Option<LogId>,
    req: VoteRequest,
) -> (HardState, VoteResponse) {
    if req.term < hs.current_term {
        (hs, VoteResponse { term: hs.current_term, vote_granted: false })
    } else {
        let voted_for = if req.term > hs.current_term {
            Option::None
        } else {
            hs.voted_for
        };
        let free = match voted_for {
            Option::None => true,
            Option::Some(c) => c == req.candidate_id,
        };
        let up_to_date = opt_log_id_le(local_last, req.last_log_id);
        if free && up_to_date {
            (
                HardState { current_term: req.term, voted_for: Option::Some(req.candidate_id) },
                VoteResponse { term: req.term, vote_granted: true },
            )
        } else {
            (
                HardState { current_term: req.term, voted_for },
                VoteResponse { term: req.term, vote_granted: false },
            )
        }
    }
}

/// Decides a vote request. The returned hard state must be persisted
/// before the response leaves the node.
pub fn handle_vote(hs: &HardState, local_last: &Option<LogId>, req: &VoteRequest) -> (r: (
    HardState,
    VoteResponse,
))
    ensures
        r == vote_decision(*hs, *local_last, *req),
{
    if req.term < hs.current_term {
        return (*hs, VoteResponse { term: hs.current_term, vote_granted: false });
    }
    let voted_for = if req.term > hs.current_term {
        Option::None
    } else {
        hs.voted_for
    };
    let free = match voted_for {
        Option::None => true,
        Option::Some(c) => c == req.candidate_id,
    };
    let up_to_date = crate::types::opt_le(local_last, &req.last_log_id);
    if free && up_to_date {
        (
            HardState { current_term: req.term, voted_for: Option::Some(req.candidate_id) },
            VoteResponse { term: req.term, vote_granted: true },
        )
    } else {
        (HardState { current_term: req.term, voted_for }, VoteResponse { term: req.term, vote_granted: false })
    }
}

/// The election-side step of leader completeness: a vote is granted only
/// to a candidate whose last log id is at least the voter's, so a node
/// missing an entry a quorum holds cannot collect that quorum's votes.
pub proof fn lemma_vote_granted_only_up_to_date(
    hs: HardState,
    local_last: Option<LogId>,
    req: VoteRequest,
)
    ensures
        vote_decision(hs, local_last, req).1.vote_granted ==> opt_log_id_le(
            local_last,
            req.last_log_id,
        ),
{
}

/// A leader's replication request: the log id right before the batch, the
/// batch itself, and the leader's commit index.
#[derive(Debug)]
pub struct AppendEntriesRequest {
    pub term: u64,
    pub leader_id: RocksNodeId,
    pub prev_log_id: Option<LogId>,
    pub entries: Vec<Entry>,
    pub leader_commit: u64,
}

/// The answer to an [`AppendEntriesRequest`]: on rejection, `conflict`
/// names the first index the leader should consider unreplicated.
#[derive(Clone, Copy, PartialEq, Eq, Debug)]
pub struct AppendEntriesResponse {
    pub term: u64,
    pub success: bool,
    pub conflict: Option<u64>,
}

/// A well-formed replication request: the batch continues right after
/// `prev_log_id`, with log ids that do not go down.
pub open spec fn append_req_wf(req: AppendEntriesRequest) -> bool {
    let es = req.entries.deep_view();
    let prev_next = match req.prev_log_id {
        Option::None => 1int,
        Option::Some(p) => p.index + 1,
    };
    &&& forall|k: int| 0 <= k < es.len() ==> (#[trigger] es[k]).log_id.index == prev_next + k
    &&& es.len() > 0 ==> opt_log_id_le(req.prev_log_id, Option::Some(es[0].log_id))
    &&& forall|j: int, k: int|
        0 <= j < k < es.len() ==> (#[trigger] es[j]).log_id.spec_le((#[trigger] es[k]).log_id)
    &&& match req.prev_log_id {
        Option::None => true,
        Option::Some(p) => p.index < u64::MAX,
    }
}

/// The local log holds `prev` where the request claims: either the entry
/// is resident with the same term, or it is exactly the purge point, or
/// there is no `prev` and nothing was purged.
pub open spec fn prev_matches(store: RocksStore, prev: Option<LogId>) -> bool {
    match prev {
        Option::None => store.purged() is None,
        Option::Some(p) => {
            ||| Option::Some(p) == store.purged()
            ||| (store.first_index() <= p.index < store.first_index() + store.log().len()
                && store.log()[p.index - store.first_index()].log_id == p)
        },
    }
}

/// The conflict index reported on a mismatch: the request's previous
/// index where the log reaches it, else right after the log's end.
pub open spec fn conflict_index(store: RocksStore, prev: Option<LogId>) -> u64 {
    match prev {
        Option::None => 0u64,
        Option::Some(p) => if p.index <= store.last_index() {
            p.index
        } else {
            (store.last_index() + 1) as u64
        },
    }
}

/// Reconciles the follower's log with a replication request.
///
/// A request from a stale term is refused without a conflict index. A
/// request whose `prev_log_id` the log does not hold is refused with one.
/// Otherwise every entry above `prev_log_id` is discarded — an index is
/// only ever overwritten this way, and only by a batch from the leader —
/// and the batch is appended, so the log becomes its prefix through
/// `prev_log_id` followed by exactly the leader's entries.
pub fn handle_append_entries(
    store: &mut RocksStore,
    current_term: u64,
    req: &AppendEntriesRequest,
) -> (r: Result<AppendEntriesResponse, StorageError>)
    requires
        old(store).wf(),
        append_req_wf(*req),
    ensures
        r is Ok,
        final(store).wf(),
        r matches Result::Ok(resp) ==> {
            &&& resp.term == current_term
            &&& resp.success <==> (req.term >= current_term && prev_matches(*old(store), req.prev_log_id))
            &&& !resp.success ==> *final(store) == *old(store)
            &&& (req.term < current_term ==> resp.conflict is None)
            &&& (req.term >= current_term && !prev_matches(*old(store), req.prev_log_id)
                ==> resp.conflict == Option::Some(conflict_index(*old(store), req.prev_log_id)))
            &&& resp.success ==> {
                let prev_next = match req.prev_log_id {
                    Option::None => 1int,
                    Option::Some(p) => p.index + 1,
                };
                &&& final(store).log() == old(store).log().take(
                    prev_next - old(store).first_index(),
                ) + req.entries.deep_view()
                &&& final(store).purged() == old(store).purged()
                &&& final(store).hard() == old(store).hard()
                &&& final(store).machine() == old(store).machine()
            }
        },
{
    if req.term < current_term {
        return Result::Ok(
            AppendEntriesResponse { term: current_term, success: false, conflict: Option::None },
        );
    }
    let ls = match store.get_log_state() {
        Result::Ok(x) => x,
        Result::Err(e) => {
            proof {
                assert(false);
            }
            return Result::Err(e);
        },
    };
    let mut matches_prev = false;
    match &req.prev_log_id {
        Option::None => {
            matches_prev = match ls.last_purged_log_id {
                Option::None => true,
                Option::Some(_) => false,
            };
        },
        Option::Some(p) => {
            let at_purge: bool = match ls.last_purged_log_id {
                Option::None => false,
                Option::Some(q) => q.term == p.term && q.index == p.index,
            };
            if at_purge {
                matches_prev = true;
            } else {
                let got = match store.try_get_log_entries(p.index, p.index + 1) {
                    Result::Ok(v) => v,
                    Result::Err(e) => {
                        proof {
                            assert(false);
                        }
                        return Result::Err(e);
                    },
                };
                proof {
                    let lr = old(store).log_range(p.index as int, p.index + 1);
                    let first = old(store).first_index();
                    assert(got.deep_view() == lr);
                    if first <= p.index < first + old(store).log().len() {
                        assert(lr =~= old(store).log().subrange(
                            p.index - first,
                            p.index + 1 - first,
                        ));
                        assert(lr[0] == old(store).log()[p.index - first]);
                    } else {
                        assert(lr.len() == 0);
                    }
                }
                if got.len() == 1 {
                    matches_prev = got[0].log_id.term == p.term && got[0].log_id.index == p.index;
                    proof {
                        assert(got.deep_view()[0] == got@[0]@);
                        let first = old(store).first_index();
                        let resident = old(store).log()[p.index - first].log_id;
                        if matches_prev {
                            assert(resident == *p);
                        } else {
                            assert(resident != *p);
                        }
                    }
                } else {
                    matches_prev = false;
                }
            }
        },
    }
    proof {
        assert(matches_prev == prev_matches(*old(store), req.prev_log_id));
    }
    if !matches_prev {
        let last_index: u64 = match ls.last_log_id {
            Option::None => 0,
            Option::Some(l) => l.index,
        };
        let conflict: u64 = match &req.prev_log_id {
            Option::None => 0,
            Option::Some(p) => if p.index <= last_index {
                p.index
            } else {
                last_index + 1
            },
        };
        return Result::Ok(
            AppendEntriesResponse {
                term: current_term,
                success: false,
                conflict: Option::Some(conflict),
            },
        );
    }
    // prev matches: drop everything above it, then append the batch.
    let prev_next: u64 = match &req.prev_log_id {
        Option::None => 1,
        Option::Some(p) => p.index + 1,
    };
    proof {
        let first = old(store).first_index();
        assert(first <= prev_next <= first + old(store).log().len());
    }
    match store.delete_conflict_logs_since(LogId { term: req.term, index: prev_next }) {
        Result::Ok(()) => {},
        Result::Err(e) => {
            proof {
                assert(false);
            }
            return Result::Err(e);
        },
    }
    proof {
        let first = old(store).first_index();
        let d = prev_next - first;
        assert(store.log() == old(store).log().take(d));
        match req.prev_log_id {
            Option::None => {
                assert(store.last_log_id() is None);
            },
            Option::Some(p) => {
                if Option::Some(p) == old(store).purged() {
                    assert(store.log().len() == 0);
                    assert(store.last_log_id() == Option::Some(p));
                } else {
                    assert(store.log().len() == d >= 1);
                    assert(store.log().last() == old(store).log()[d - 1]);
                    assert(store.last_log_id() == Option::Some(p));
                }
            },
        }
        assert(store.last_index() == prev_next - 1);
    }
    match store.append_to_log(&req.entries) {
        Result::Ok(()) => {},
        Result::Err(e) => {
            proof {
                assert(false);
            }
            return Result::Err(e);
        },
    }
    Result::Ok(
        AppendEntriesResponse { term: current_term, success: true, conflict: Option::None },
    )
}

} // verus!

verus! {

/// How many of the acknowledged indices in `m` are at least `v`.
pub open spec fn count_ge(m: Seq<u64>, v: u64) -> int
    decreases m.len(),
{
    if m.len() == 0 {
        0
    } else {
        count_ge(m.drop_last(), v) + if m.last() >= v {
            1int
        } else {
            0int
        }
    }
}

/// The commit index a leader may advance to: the highest index that at
/// least `quorum` of the voters have acknowledged, taken from their
/// acknowledged indices `matchings`; 0 (the reserved index) when there is
/// none.
pub fn committed_index(matchings: &Vec<u64>, quorum: usize) -> (r: u64)
    ensures
        r == 0 || exists|i: int| 0 <= i < matchings@.len() && matchings@[i] == r,
        r != 0 ==> count_ge(matchings@, r) >= quorum,
        forall|i: int|
            0 <= i < matchings@.len() && count_ge(matchings@, #[trigger] matchings@[i]) >= quorum
                ==> matchings@[i] <= r,
{
    let n = matchings.len();
    let mut best: u64 = 0;
    let mut i: usize = 0;
    while i < n
        invariant
            n == matchings@.len(),
            i <= n,
            best == 0 || exists|x: int| 0 <= x < n && matchings@[x] == best,
            best != 0 ==> count_ge(matchings@, best) >= quorum,
            forall|x: int|
                0 <= x < i && count_ge(matchings@, #[trigger] matchings@[x]) >= quorum
                    ==> matchings@[x] <= best,
        decreases n - i,
    {
        let c = matchings[i];
        let mut cnt: usize = 0;
        let mut j: usize = 0;
        while j < n
            invariant
                n == matchings@.len(),
                j <= n,
                cnt == count_ge(matchings@.take(j as int), c),
                cnt <= j,
            decreases n - j,
        {
            if matchings[j] >= c {
                cnt = cnt + 1;
            }
            proof {
                assert(matchings@.take(j + 1).drop_last() =~= matchings@.take(j as int));
                assert(matchings@.take(j + 1).last() == matchings@[j as int]);
            }
            j += 1;
        }
        proof {
            assert(matchings@.take(n as int) =~= matchings@);
        }
        if cnt >= quorum && c > best {
            best = c;
            proof {
                assert(matchings@[i as int] == best);
            }
        }
        i += 1;
    }
    best
}

} // verus!

verus! {

/// Log matching across one replication exchange: when the batch of a
/// request is exactly what the leader's log holds over its range, a
/// follower that accepted the request holds, at every index of that
/// range, the same entry as the leader. The premises on the follower's
/// two states are what [`handle_append_entries`] ensures of a successful
/// call.
pub proof fn lemma_log_matching_after_replication(
    leader: RocksStore,
    f_pre: RocksStore,
    f_post: RocksStore,
    req: AppendEntriesRequest,
)
    requires
        append_req_wf(req),
        leader.wf(),
        f_pre.wf(),
        f_post.wf(),
        forall|k: int|
            0 <= k < req.entries.deep_view().len() ==> leader.has_index(
                (#[trigger] req.entries.deep_view()[k]).log_id.index as int,
            ) && leader.entry_at(req.entries.deep_view()[k].log_id.index as int)
                == req.entries.deep_view()[k],
        prev_matches(f_pre, req.prev_log_id),
        f_post.purged() == f_pre.purged(),
        f_post.log() == f_pre.log().take(
            (match req.prev_log_id {
                Option::None => 1int,
                Option::Some(p) => p.index + 1,
            }) - f_pre.first_index(),
        ) + req.entries.deep_view(),
    ensures
        forall|i: int|
            (match req.prev_log_id {
                Option::None => 1int,
                Option::Some(p) => p.index + 1,
            }) <= i < (match req.prev_log_id {
                Option::None => 1int,
                Option::Some(p) => p.index + 1,
            }) + req.entries.deep_view().len() ==> f_post.has_index(i) && #[trigger] f_post.entry_at(
                i,
            ) == leader.entry_at(i),
{
    let es = req.entries.deep_view();
    let prev_next = match req.prev_log_id {
        Option::None => 1int,
        Option::Some(p) => p.index + 1,
    };
    let first = f_pre.first_index();
    assert(first <= prev_next) by {
        match req.prev_log_id {
            Option::None => {},
            Option::Some(p) => {
                if Option::Some(p) == f_pre.purged() {
                } else {
                    assert(first <= p.index);
                }
            },
        }
    }
    let keep = prev_next - first;
    assert(f_post.first_index() == first);
    assert forall|i: int| prev_next <= i < prev_next + es.len() implies f_post.has_index(i) && (
    #[trigger] f_post.entry_at(i)) == leader.entry_at(i) by {
        let k = i - prev_next;
        assert(es[k].log_id.index == i);
        assert(f_post.log()[keep + k] == es[k]);
        assert(f_post.entry_at(i) == f_post.log()[i - first]);
    }
}

} // verus!
