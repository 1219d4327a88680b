//! The replicated state machine: deterministic application of committed
//! entries over a key-value map, the last-applied log id, the effective
//! membership, and the serializable image a snapshot carries.

use vstd::prelude::*;
use vstd::utf8::encode_utf8;
use crate::types::LogId;
use crate::types::EffectiveMembership;
use crate::types::EffectiveMembershipV;
use crate::types::StorageError;
use crate::types::opt_log_id_le;
use crate::codec::pairs_view;

verus! {

/// The key-value map a pair sequence denotes; a later pair with the same
/// key wins.
pub open spec fn kv_map(s: Seq<(Seq<char>, Seq<char>)>) -> Map<Seq<char>, Seq<char>>
    decreases s.len(),
{
    if s.len() == 0 {
        Map::empty()
    } else {
        kv_map(s.drop_last()).insert(s.last().0, s.last().1)
    }
}

/// No two pairs share a key.
pub open spec fn keys_unique(s: Seq<(Seq<char>, Seq<char>)>) -> bool {
    forall|i: int, j: int| 0 <= i < j < s.len() ==> (#[trigger] s[i]).0 != (#[trigger] s[j]).0
}

/// With unique keys, the map holds each pair's value under its key.
pub proof fn lemma_kv_map_at(s: Seq<(Seq<char>, Seq<char>)>, i: int)
    requires
        keys_unique(s),
        0 <= i < s.len(),
    ensures
        kv_map(s).contains_key(s[i].0),
        kv_map(s)[s[i].0] == s[i].1,
    decreases s.len(),
{
    if i == s.len() - 1 {
    } else {
        assert(s.drop_last()[i] == s[i]);
        lemma_kv_map_at(s.drop_last(), i);
        assert(s.last().0 != s[i].0);
    }
}

/// A key no pair holds is not in the map.
pub proof fn lemma_kv_map_absent(s: Seq<(Seq<char>, Seq<char>)>, k: Seq<char>)
    requires
        forall|i: int| 0 <= i < s.len() ==> (#[trigger] s[i]).0 != k,
    ensures
        !kv_map(s).contains_key(k),
    decreases s.len(),
{
    if s.len() > 0 {
        assert forall|i: int| 0 <= i < s.drop_last().len() implies (#[trigger] s.drop_last()[
            i
        ]).0 != k by {
            assert(s.drop_last()[i] == s[i]);
        }
        lemma_kv_map_absent(s.drop_last(), k);
    }
}

/// Replacing the value at position `i` inserts under that pair's key.
pub proof fn lemma_kv_map_update(s: Seq<(Seq<char>, Seq<char>)>, i: int, v: Seq<char>)
    requires
        keys_unique(s),
        0 <= i < s.len(),
    ensures
        kv_map(s.update(i, (s[i].0, v))) == kv_map(s).insert(s[i].0, v),
    decreases s.len(),
{
    let t = s.update(i, (s[i].0, v));
    let k = s[i].0;
    if i == s.len() - 1 {
        assert(t.drop_last() =~= s.drop_last());
        assert(t.last() == (k, v));
        assert(kv_map(s.drop_last()).insert(k, s[i].1).insert(k, v) =~= kv_map(
            s.drop_last(),
        ).insert(k, v));
    } else {
        assert(t.drop_last() =~= s.drop_last().update(i, (s[i].0, v)));
        assert(s.drop_last()[i] == s[i]);
        lemma_kv_map_update(s.drop_last(), i, v);
        assert(t.last() == s.last());
        let l0 = s.last().0;
        let l1 = s.last().1;
        assert(l0 != k);
        assert(kv_map(s.drop_last()).insert(k, v).insert(l0, l1) =~= kv_map(
            s.drop_last(),
        ).insert(l0, l1).insert(k, v));
    }
}

/// Decides character-for-character string equality.
pub fn str_eq(a: &str, b: &str) -> (r: bool)
    ensures
        r == (a@ == b@),
{
    let ab = a.as_bytes();
    let bb = b.as_bytes();
    if ab.len() != bb.len() {
        proof {
            if a@ == b@ {
                assert(encode_utf8(a@) == encode_utf8(b@));
            }
        }
        return false;
    }
    let n = ab.len();
    let mut i: usize = 0;
    while i < n
        invariant
            n == ab@.len() == bb@.len(),
            i <= n,
            ab@ == encode_utf8(a@),
            bb@ == encode_utf8(b@),
            forall|j: int| 0 <= j < i ==> ab@[j] == bb@[j],
        decreases n - i,
    {
        if ab[i] != bb[i] {
            proof {
                if a@ == b@ {
                    assert(encode_utf8(a@) == encode_utf8(b@));
                    assert(ab@[i as int] == bb@[i as int]);
                }
            }
            return false;
        }
        i += 1;
    }
    proof {
        assert(ab@ =~= bb@);
        vstd::utf8::encode_utf8_decode_utf8(a@);
        vstd::utf8::encode_utf8_decode_utf8(b@);
    }
    true
}

/// The live state machine: a copy of the replicated data on this node.
#[derive(Debug)]
pub struct RocksStateMachine {
    last_applied_log: Option<LogId>,
    last_membership: Option<EffectiveMembership>,
    data: Vec<(String, String)>,
}

impl RocksStateMachine {
    /// The last log id applied to this machine.
    pub closed spec fn applied(self) -> Option<LogId> {
        self.last_applied_log
    }

    /// The membership configuration last applied to this machine.
    pub closed spec fn membership_dv(self) -> Option<EffectiveMembershipV> {
        self.last_membership.deep_view()
    }

    /// The resident key-value pairs.
    pub closed spec fn pairs(self) -> Seq<(Seq<char>, Seq<char>)> {
        pairs_view(self.data@)
    }

    /// The key-value data as a map.
    pub open spec fn kv(self) -> Map<Seq<char>, Seq<char>> {
        kv_map(self.pairs())
    }

    /// Each key is resident at most once.
    pub closed spec fn wf(self) -> bool {
        keys_unique(self.pairs())
    }

    /// An empty machine: nothing applied, no membership, no data.
    pub fn new() -> (r: RocksStateMachine)
        ensures
            r.wf(),
            r.applied() is None,
            r.membership_dv() is None,
            r.pairs() == Seq::<(Seq<char>, Seq<char>)>::empty(),
            r.kv() == Map::<Seq<char>, Seq<char>>::empty(),
    {
        let r = RocksStateMachine {
            last_applied_log: Option::None,
            last_membership: Option::None,
            data: Vec::new(),
        };
        proof {
            assert(r.pairs() =~= Seq::<(Seq<char>, Seq<char>)>::empty());
        }
        r
    }

    /// Finds the position of `key` among the resident pairs, if any.
    fn find(&self, key: &str) -> (r: Option<usize>)
        ensures
            r matches Option::Some(i) ==> i < self.pairs().len() && self.pairs()[i as int].0
                == key@,
            r is None ==> forall|j: int| 0 <= j < self.pairs().len() ==> (#[trigger] self.pairs()[
                j
            ]).0 != key@,
    {
        let n = self.data.len();
        let mut i: usize = 0;
        while i < n
            invariant
                n == self.data@.len(),
                i <= n,
                forall|j: int| 0 <= j < i ==> (#[trigger] pairs_view(self.data@)[j]).0 != key@,
            decreases n - i,
        {
            if str_eq(self.data[i].0.as_str(), key) {
                proof {
                    assert(pairs_view(self.data@)[i as int].0 == self.data@[i as int].0@);
                }
                return Option::Some(i);
            }
            proof {
                assert(pairs_view(self.data@)[i as int].0 == self.data@[i as int].0@);
            }
            i += 1;
        }
        Option::None
    }

    /// Writes `value` under `key`, replacing any resident value.
    pub fn insert(&mut self, key: String, value: String) -> (r: Result<(), StorageError>)
        requires
            old(self).wf(),
        ensures
            r is Ok,
            final(self).wf(),
            final(self).applied() == old(self).applied(),
            final(self).membership_dv() == old(self).membership_dv(),
            final(self).kv() == old(self).kv().insert(key@, value@),
    {
        let found = self.find(key.as_str());
        match found {
            Option::Some(i) => {
                let ghost olds = self.pairs();
                proof {
                    lemma_kv_map_update(olds, i as int, value@);
                }
                self.data.set(i, (key, value));
                proof {
                    assert(self.pairs() =~= olds.update(i as int, (olds[i as int].0, value@)));
                    assert forall|x: int, y: int|
                        0 <= x < y < self.pairs().len() implies (#[trigger] self.pairs()[x]).0 != (
                    #[trigger] self.pairs()[y]).0 by {
                        assert(self.pairs()[x].0 == olds[x].0);
                        assert(self.pairs()[y].0 == olds[y].0);
                    }
                }
            },
            Option::None => {
                let ghost olds = self.pairs();
                self.data.push((key, value));
                proof {
                    assert(self.pairs() =~= olds.push((key@, value@)));
                    assert(self.pairs().drop_last() =~= olds);
                    assert forall|x: int, y: int|
                        0 <= x < y < self.pairs().len() implies (#[trigger] self.pairs()[x]).0 != (
                    #[trigger] self.pairs()[y]).0 by {
                        if y < self.pairs().len() - 1 {
                            assert(self.pairs()[x].0 == olds[x].0);
                            assert(self.pairs()[y].0 == olds[y].0);
                        } else {
                            assert(self.pairs()[x].0 == olds[x].0);
                        }
                    }
                }
            },
        }
        Result::Ok(())
    }

    /// Reads the value under `key`, if one is resident.
    pub fn get(&self, key: &str) -> (r: Result<Option<String>, StorageError>)
        requires
            self.wf(),
        ensures
            r is Ok,
            r matches Result::Ok(v) ==> match v {
                Option::None => !self.kv().contains_key(key@),
                Option::Some(s) => self.kv().contains_key(key@) && s@ == self.kv()[key@],
            },
    {
        match self.find(key) {
            Option::Some(i) => {
                proof {
                    lemma_kv_map_at(self.pairs(), i as int);
                    assert(pairs_view(self.data@)[i as int].1 == self.data@[i as int].1@);
                }
                Result::Ok(Option::Some(self.data[i].1.clone()))
            },
            Option::None => {
                proof {
                    lemma_kv_map_absent(self.pairs(), key@);
                }
                Result::Ok(Option::None)
            },
        }
    }

    /// Records that the log up to `log_id` has been applied; the recorded
    /// id never goes backwards.
    pub fn set_last_applied_log(&mut self, log_id: LogId) -> (r: Result<(), StorageError>)
        requires
            opt_log_id_le(old(self).applied(), Option::Some(log_id)),
        ensures
            r is Ok,
            final(self).applied() == Option::Some(log_id),
            final(self).membership_dv() == old(self).membership_dv(),
            final(self).pairs() == old(self).pairs(),
            final(self).wf() == old(self).wf(),
            opt_log_id_le(old(self).applied(), final(self).applied()),
    {
        self.last_applied_log = Option::Some(log_id);
        Result::Ok(())
    }

    /// The last applied log id.
    pub fn get_last_applied_log(&self) -> (r: Result<Option<LogId>, StorageError>)
        ensures
            r == Result::<Option<LogId>, StorageError>::Ok(self.applied()),
    {
        Result::Ok(self.last_applied_log)
    }

    /// Records the membership configuration in force.
    pub fn set_last_membership(&mut self, membership: EffectiveMembership) -> (r: Result<
        (),
        StorageError,
    >)
        ensures
            r is Ok,
            final(self).membership_dv() == Option::Some(membership@),
            final(self).applied() == old(self).applied(),
            final(self).pairs() == old(self).pairs(),
            final(self).wf() == old(self).wf(),
    {
        self.last_membership = Option::Some(membership);
        Result::Ok(())
    }

    /// The membership configuration last applied.
    pub fn get_last_membership(&self) -> (r: Result<Option<EffectiveMembership>, StorageError>)
        ensures
            r is Ok,
            r matches Result::Ok(m) ==> m.deep_view() == self.membership_dv(),
    {
        match &self.last_membership {
            Option::None => Result::Ok(Option::None),
            Option::Some(m) => Result::Ok(Option::Some(m.clone())),
        }
    }
}

} // verus!

verus! {

/// The serializable image of a state machine: exactly what a snapshot's
/// byte payload carries.
#[derive(Debug)]
pub struct SerializableRocksStateMachine {
    pub last_applied_log: Option<LogId>,
    pub last_membership: Option<EffectiveMembership>,
    /// Application data, one pair per resident key.
    pub data: Vec<(String, String)>,
}

/// Ghost form of a [`SerializableRocksStateMachine`].
pub struct StateMachineV {
    pub last_applied_log: Option<LogId>,
    pub last_membership: Option<EffectiveMembershipV>,
    pub data: Seq<(Seq<char>, Seq<char>)>,
}

impl View for SerializableRocksStateMachine {
    type V = StateMachineV;

    open spec fn view(&self) -> StateMachineV {
        StateMachineV {
            last_applied_log: self.last_applied_log,
            last_membership: self.last_membership.deep_view(),
            data: pairs_view(self.data@),
        }
    }
}

/// Encoding of a snapshot payload: last applied log id, last effective
/// membership, then the key-value pairs.
pub open spec fn snap_enc(sv: StateMachineV) -> Seq<u8> {
    crate::codec::enc_opt_log_id(sv.last_applied_log) + crate::codec::enc_opt_eff_membership(
        sv.last_membership,
    ) + crate::codec::enc_pair_list(sv.data)
}

/// Every count in a snapshot payload fits its length prefix.
pub open spec fn snap_fit(sv: StateMachineV) -> bool {
    &&& crate::codec::opt_eff_membership_fit(sv.last_membership)
    &&& crate::codec::pairs_fit(sv.data)
}

/// Decoding of a snapshot payload, per [`snap_enc`]; the whole byte string
/// must be consumed.
pub open spec fn snap_dec(b: Seq<u8>) -> Option<StateMachineV> {
    match crate::codec::dec_opt_log_id(b, 0) {
        Option::None => Option::None,
        Option::Some((la, p)) => match crate::codec::dec_opt_eff_membership(b, p) {
            Option::None => Option::None,
            Option::Some((lm, q)) => match crate::codec::dec_pair_list(b, q) {
                Option::None => Option::None,
                Option::Some((d, w)) => if w == b.len() {
                    Option::Some(
                        StateMachineV { last_applied_log: la, last_membership: lm, data: d },
                    )
                } else {
                    Option::None
                },
            },
        },
    }
}

/// Decoding a snapshot payload built from a machine image gives that image
/// back: serializing and installing a snapshot loses nothing.
pub proof fn lemma_snapshot_round_trip(sv: StateMachineV)
    requires
        snap_fit(sv),
    ensures
        snap_dec(snap_enc(sv)) == Option::Some(sv),
{
    let a = crate::codec::enc_opt_log_id(sv.last_applied_log);
    let m = crate::codec::enc_opt_eff_membership(sv.last_membership);
    let d = crate::codec::enc_pair_list(sv.data);
    let b = snap_enc(sv);
    assert(b.subrange(0, b.len() as int) =~= b);
    assert(crate::codec::sub_at(b, 0, (a + m) + d));
    crate::codec::lemma_sub_at_split(b, 0, a + m, d);
    crate::codec::lemma_sub_at_split(b, 0, a, m);
    crate::codec::lemma_dec_enc_opt_log_id(b, 0, sv.last_applied_log);
    crate::codec::lemma_dec_enc_opt_eff_membership(b, a.len() as int, sv.last_membership);
    crate::codec::lemma_dec_enc_pair_list(b, a.len() + m.len() as int, sv.data);
}

impl SerializableRocksStateMachine {
    /// Serializes this image into the snapshot byte payload.
    pub fn to_bytes(&self) -> (r: Vec<u8>)
        ensures
            r@ == snap_enc(self@),
            snap_fit(self@),
    {
        let mut out: Vec<u8> = Vec::new();
        crate::codec::write_opt_log_id(&mut out, &self.last_applied_log);
        crate::codec::write_opt_eff_membership(&mut out, &self.last_membership);
        crate::codec::write_pair_list(&mut out, &self.data);
        proof {
            assert(out@ =~= snap_enc(self@));
        }
        out
    }

    /// Deserializes a snapshot byte payload; fails exactly on bytes no
    /// image encodes to.
    pub fn from_bytes(data: &Vec<u8>) -> (r: Option<SerializableRocksStateMachine>)
        ensures
            r is Some <==> snap_dec(data@) is Some,
            r matches Option::Some(s) ==> snap_dec(data@) == Option::Some(s@),
    {
        let (la, p) = match crate::codec::read_opt_log_id(data, 0) {
            Option::None => {
                return Option::None;
            },
            Option::Some(x) => x,
        };
        let (lm, q) = match crate::codec::read_opt_eff_membership(data, p) {
            Option::None => {
                return Option::None;
            },
            Option::Some(x) => x,
        };
        let (d, w) = match crate::codec::read_pair_list(data, q) {
            Option::None => {
                return Option::None;
            },
            Option::Some(x) => x,
        };
        if w != data.len() {
            return Option::None;
        }
        Option::Some(
            SerializableRocksStateMachine {
                last_applied_log: la,
                last_membership: lm,
                data: d,
            },
        )
    }

    /// Captures the serializable image of a live machine.
    pub fn from(state: &RocksStateMachine) -> (r: SerializableRocksStateMachine)
        ensures
            r@.last_applied_log == state.applied(),
            r@.last_membership == state.membership_dv(),
            r@.data == state.pairs(),
    {
        RocksStateMachine::to_serializable(state)
    }
}

impl RocksStateMachine {
    /// The serializable image of this machine.
    pub fn to_serializable(&self) -> (r: SerializableRocksStateMachine)
        ensures
            r@.last_applied_log == self.applied(),
            r@.last_membership == self.membership_dv(),
            r@.data == self.pairs(),
    {
        let mut data: Vec<(String, String)> = Vec::new();
        let n = self.data.len();
        let mut i: usize = 0;
        while i < n
            invariant
                n == self.data@.len(),
                i <= n,
                data@.len() == i,
                forall|j: int| 0 <= j < i ==> (#[trigger] data@[j]).0@ == self.data@[j].0@
                    && data@[j].1@ == self.data@[j].1@,
            decreases n - i,
        {
            data.push((self.data[i].0.clone(), self.data[i].1.clone()));
            i += 1;
        }
        proof {
            assert forall|j: int| 0 <= j < n implies pairs_view(data@)[j] == pairs_view(
                self.data@,
            )[j] by {}
            assert(pairs_view(data@) =~= pairs_view(self.data@));
        }
        let last_membership = match &self.last_membership {
            Option::None => Option::None,
            Option::Some(m) => Option::Some(m.clone()),
        };
        SerializableRocksStateMachine {
            last_applied_log: self.last_applied_log,
            last_membership,
            data,
        }
    }

    /// Rebuilds a live machine from a serializable image, inserting each
    /// pair in turn; a later duplicate key wins, as in the map the image
    /// denotes.
    pub fn from_serializable(sm: SerializableRocksStateMachine) -> (r: Result<
        RocksStateMachine,
        StorageError,
    >)
        ensures
            r is Ok,
            r matches Result::Ok(m) ==> {
                &&& m.wf()
                &&& m.applied() == sm@.last_applied_log
                &&& m.membership_dv() == sm@.last_membership
                &&& m.kv() == kv_map(sm@.data)
            },
    {
        let SerializableRocksStateMachine { last_applied_log, last_membership, data } = sm;
        let mut m = RocksStateMachine::new();
        let n = data.len();
        let mut i: usize = 0;
        while i < n
            invariant
                n == data@.len(),
                i <= n,
                m.wf(),
                m.applied() is None,
                m.membership_dv() is None,
                m.kv() == kv_map(pairs_view(data@).take(i as int)),
            decreases n - i,
        {
            let key = data[i].0.clone();
            let value = data[i].1.clone();
            match m.insert(key, value) {
                Result::Ok(()) => {},
                Result::Err(e) => {
                    return Result::Err(e);
                },
            }
            proof {
                let pv = pairs_view(data@);
                assert(pv.take(i + 1).drop_last() =~= pv.take(i as int));
                assert(pv.take(i + 1).last() == pv[i as int]);
            }
            i += 1;
        }
        proof {
            assert(pairs_view(data@).take(n as int) =~= pairs_view(data@));
        }
        match last_applied_log {
            Option::None => {},
            Option::Some(l) => {
                match m.set_last_applied_log(l) {
                    Result::Ok(()) => {},
                    Result::Err(e) => {
                        return Result::Err(e);
                    },
                }
            },
        }
        match last_membership {
            Option::None => {},
            Option::Some(mem) => {
                match m.set_last_membership(mem) {
                    Result::Ok(()) => {},
                    Result::Err(e) => {
                        return Result::Err(e);
                    },
                }
            },
        }
        Result::Ok(m)
    }
}

} // verus!
