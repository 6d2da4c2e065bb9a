use vstd::prelude::*;
use crate::codec::{
    decode, encode, encoded_at, encode_cmd, cmd_fits, lemma_encoded_at_extend, lemma_record_unique,
    Cmd, CodecError, Operation,
};
use crate::err::KvError;
use crate::index::Index;
use crate::pointer::Pointer;

verus! {

/// Once the active segment has reached this many bytes, writes go to a new one.
pub const SINGLE_LOG_SIZE: u64 = 1048576;

/// Once this many bytes of the segments are known to be obsolete, they are compacted.
pub const COMPACT_THRESHOLD: u64 = 1048576;

/// The segment that compaction writes the live records to.
pub const COMPACTED_FID: u64 = 1;

/// The active segment right after compaction or crash recovery.
pub const FIRST_ACTIVE_FID: u64 = 2;

/// What the store has to do on disk after an assignment.
#[derive(Clone, Copy, Debug, PartialEq, Eq, Structural)]
pub enum Step {
    /// Nothing more.
    Stay,
    /// Start a new active segment.
    Roll,
    /// Rewrite the live records and drop the old segments.
    Compact,
}

/// `a + b`, or the largest `u64` where that does not fit.
pub open spec fn sat_add(a: u64, b: u64) -> u64 {
    if a + b > u64::MAX { u64::MAX } else { (a + b) as u64 }
}

/// The length of the record that `k` had, or zero.
pub open spec fn prior_len(m: Map<Seq<char>, Pointer>, k: Seq<char>) -> u64 {
    if m.contains_key(k) { m[k].len } else { 0 }
}

/// `p` locates, in the bytes `b` of segment `fid`, an assignment of `k`.
pub open spec fn locates_put(b: Seq<u8>, fid: u64, k: Seq<char>, p: Pointer) -> bool {
    p.fid == fid && exists|v: Seq<char>| #[trigger] encoded_at(b, p.start as int, p.start + p.len, Cmd::Put(k, v))
}

/// The bookkeeping of a store: which record holds each live key, the active
/// segment, and how many bytes of the segments are obsolete.
pub struct Engine {
    pub index: Index,
    pub fid: u64,
    pub rubbish: u64,
}

impl Engine {
    /// The index holds each key once.
    pub open spec fn wf(&self) -> bool {
        self.index.wf()
    }

    /// Each live key and the location of its latest assignment.
    pub open spec fn map(&self) -> Map<Seq<char>, Pointer> {
        self.index.view()
    }

    /// An engine with no keys, whose active segment is `fid`.
    pub fn new(fid: u64) -> (r: Self)
        ensures
            r.wf(),
            r.map() == Map::<Seq<char>, Pointer>::empty(),
            r.fid == fid,
            r.rubbish == 0,
    {
        Engine { index: Index::new(), fid, rubbish: 0 }
    }

    /// Where the latest assignment of `key` is, if the key is live.
    pub fn lookup(&self, key: &String) -> (r: Option<Pointer>)
        requires
            self.wf(),
        ensures
            r == (if self.map().contains_key(key@) { Some(self.map()[key@]) } else { None::<Pointer> }),
    {
        self.index.get(key)
    }

    /// Records that an assignment of `key`, `len` bytes long, was written at
    /// offset `start` of the active segment, and says what has to follow.
    pub fn record_set(&mut self, key: String, start: u64, len: u64) -> (r: Step)
        requires
            old(self).wf(),
        ensures
            final(self).wf(),
            final(self).map() == old(self).map().insert(key@, Pointer { fid: old(self).fid, start, len }),
            final(self).fid == old(self).fid,
            final(self).rubbish == sat_add(old(self).rubbish, prior_len(old(self).map(), key@)),
            r == (if final(self).rubbish >= COMPACT_THRESHOLD {
                Step::Compact
            } else if start >= SINGLE_LOG_SIZE {
                Step::Roll
            } else {
                Step::Stay
            }),
    {
        let p = Pointer::new(self.fid, start, len);
        if let Some(prev) = self.index.insert(key, p) {
            self.rubbish = self.rubbish.saturating_add(prev.len);
        }
        if self.rubbish >= COMPACT_THRESHOLD {
            Step::Compact
        } else if start >= SINGLE_LOG_SIZE {
            Step::Roll
        } else {
            Step::Stay
        }
    }

    /// Makes the next segment the active one.
    pub fn roll(&mut self)
        requires
            old(self).fid < u64::MAX,
        ensures
            final(self).fid == old(self).fid + 1,
            final(self).index == old(self).index,
            final(self).rubbish == old(self).rubbish,
    {
        self.fid = self.fid + 1;
    }

    /// Takes `key` out of the index; its record becomes obsolete. Fails with
    /// `KeyNotFound` exactly when the key is not live.
    pub fn remove(&mut self, key: &String) -> (r: Result<Pointer, KvError>)
        requires
            old(self).wf(),
        ensures
            final(self).wf(),
            final(self).fid == old(self).fid,
            old(self).map().contains_key(key@) ==> r == Ok::<Pointer, KvError>(old(self).map()[key@])
                && final(self).map() == old(self).map().remove(key@)
                && final(self).rubbish == sat_add(old(self).rubbish, old(self).map()[key@].len),
            !old(self).map().contains_key(key@) ==> (r matches Err(KvError::KeyNotFound))
                && final(self).map() == old(self).map() && final(self).rubbish == old(self).rubbish,
    {
        match self.index.remove(key) {
            Some(p) => {
                self.rubbish = self.rubbish.saturating_add(p.len);
                Ok(p)
            },
            None => {
                proof { assert(self.map() =~= old(self).map()); }
                Err(KvError::KeyNotFound)
            },
        }
    }

    /// Counts `n` more bytes as obsolete (a removal record, itself garbage).
    pub fn add_rubbish(&mut self, n: u64)
        ensures
            final(self).rubbish == sat_add(old(self).rubbish, n),
            final(self).index == old(self).index,
            final(self).fid == old(self).fid,
    {
        self.rubbish = self.rubbish.saturating_add(n);
    }
}

/// The bytes of records written one after another.
pub open spec fn log_bytes(cs: Seq<Cmd>) -> Seq<u8>
    decreases cs.len(),
{
    if cs.len() == 0 {
        Seq::empty()
    } else {
        encode_cmd(cs[0]) + log_bytes(cs.drop_first())
    }
}

pub open spec fn all_fit(cs: Seq<Cmd>) -> bool {
    forall|i: int| 0 <= i < cs.len() ==> #[trigger] cmd_fits(cs[i])
}

/// What replaying record `c`, found at offset `start` of segment `fid`, does to the index.
pub open spec fn replay_step(m: Map<Seq<char>, Pointer>, fid: u64, c: Cmd, start: int) -> Map<Seq<char>, Pointer> {
    match c {
        Cmd::Put(k, _) => m.insert(k, Pointer { fid, start: start as u64, len: encode_cmd(c).len() as u64 }),
        Cmd::Rm(k) => m.remove(k),
    }
}

/// The index that replaying the records `cs`, the first at offset `start`, leaves.
pub open spec fn apply_log(m: Map<Seq<char>, Pointer>, fid: u64, cs: Seq<Cmd>, start: int) -> Map<Seq<char>, Pointer>
    decreases cs.len(),
{
    if cs.len() == 0 {
        m
    } else {
        apply_log(replay_step(m, fid, cs[0], start), fid, cs.drop_first(), start + encode_cmd(cs[0]).len())
    }
}

/// The bytes that replaying the records `cs`, the first at offset `start`,
/// finds obsolete: each record that a later one replaces or removes, and
/// each removal record itself.
pub open spec fn log_rubbish(m: Map<Seq<char>, Pointer>, fid: u64, cs: Seq<Cmd>, start: int) -> nat
    decreases cs.len(),
{
    if cs.len() == 0 {
        0
    } else {
        let c = cs[0];
        let here: nat = match c {
            Cmd::Put(k, _) => prior_len(m, k) as nat,
            Cmd::Rm(k) => prior_len(m, k) as nat + encode_cmd(c).len(),
        };
        here + log_rubbish(replay_step(m, fid, c, start), fid, cs.drop_first(), start + encode_cmd(c).len())
    }
}

/// `n`, or the largest `u64` where it does not fit.
pub open spec fn capped(n: nat) -> u64 {
    if n > u64::MAX { u64::MAX } else { n as u64 }
}

proof fn lemma_log_first(cs: Seq<Cmd>)
    requires
        cs.len() > 0,
    ensures
        encoded_at(log_bytes(cs), 0, encode_cmd(cs[0]).len() as int, cs[0]),
        log_bytes(cs).subrange(encode_cmd(cs[0]).len() as int, log_bytes(cs).len() as int) == log_bytes(cs.drop_first()),
{
    let e = encode_cmd(cs[0]);
    assert(log_bytes(cs).subrange(0, e.len() as int) =~= e);
    assert(log_bytes(cs).subrange(e.len() as int, log_bytes(cs).len() as int) =~= log_bytes(cs.drop_first()));
}

proof fn lemma_cmd_nonempty(c: Cmd)
    ensures
        encode_cmd(c).len() > 0,
{
    match c {
        Cmd::Put(k, v) => assert(encode_cmd(c)[0] == (seq![0u8] + crate::codec::field(k) + crate::codec::field(v))[0]),
        Cmd::Rm(k) => assert(encode_cmd(c)[0] == (seq![1u8] + crate::codec::field(k))[0]),
    }
}

/// The bytes of a log determine its records.
pub proof fn lemma_log_unique(cs1: Seq<Cmd>, cs2: Seq<Cmd>)
    requires
        all_fit(cs1),
        all_fit(cs2),
        log_bytes(cs1) == log_bytes(cs2),
    ensures
        cs1 == cs2,
    decreases cs1.len(),
{
    if cs1.len() == 0 && cs2.len() > 0 {
        lemma_cmd_nonempty(cs2[0]);
    } else if cs1.len() > 0 && cs2.len() == 0 {
        lemma_cmd_nonempty(cs1[0]);
    } else if cs1.len() > 0 {
        lemma_log_first(cs1);
        lemma_log_first(cs2);
        assert(cmd_fits(cs1[0]) && cmd_fits(cs2[0]));
        lemma_record_unique(log_bytes(cs1), 0, encode_cmd(cs1[0]).len() as int, cs1[0], encode_cmd(cs2[0]).len() as int, cs2[0]);
        assert forall|i: int| 0 <= i < cs1.drop_first().len() implies #[trigger] cmd_fits(cs1.drop_first()[i]) by {
            assert(cmd_fits(cs1[i + 1]));
        }
        assert forall|i: int| 0 <= i < cs2.drop_first().len() implies #[trigger] cmd_fits(cs2.drop_first()[i]) by {
            assert(cmd_fits(cs2[i + 1]));
        }
        lemma_log_unique(cs1.drop_first(), cs2.drop_first());
        assert(cs1 =~= seq![cs1[0]] + cs1.drop_first());
        assert(cs2 =~= seq![cs2[0]] + cs2.drop_first());
    } else {
        assert(cs1 =~= cs2);
    }
}

/// One assignment record for each pair of `live`, in order.
pub open spec fn puts_of(live: Seq<(String, String)>) -> Seq<Cmd> {
    Seq::new(live.len(), |i: int| Cmd::Put(live[i].0@, live[i].1@))
}

/// Appending a record to a log appends its bytes.
pub proof fn lemma_log_push(cs: Seq<Cmd>, c: Cmd)
    ensures
        log_bytes(cs.push(c)) == log_bytes(cs) + encode_cmd(c),
    decreases cs.len(),
{
    if cs.len() == 0 {
        assert(cs.push(c).drop_first() =~= Seq::<Cmd>::empty());
        assert(cs.push(c)[0] == c);
        assert(log_bytes(cs.push(c)) == encode_cmd(c) + log_bytes(Seq::<Cmd>::empty()));
        assert(log_bytes(cs.push(c)) =~= log_bytes(cs) + encode_cmd(c));
    } else {
        lemma_log_push(cs.drop_first(), c);
        assert(cs.push(c).drop_first() =~= cs.drop_first().push(c));
        assert(cs.push(c)[0] == cs[0]);
        assert(log_bytes(cs.push(c)) == encode_cmd(cs[0]) + log_bytes(cs.drop_first().push(c)));
        assert(log_bytes(cs) == encode_cmd(cs[0]) + log_bytes(cs.drop_first()));
        assert(log_bytes(cs.push(c)) =~= log_bytes(cs) + encode_cmd(c));
    }
}

/// How many leading bytes of `b` are whole records: those bytes are a log,
/// and no record begins where they end unless the bytes end there. Replay
/// of the newest segment stops there, so that a record cut short by a crash
/// is ignored.
pub fn whole_records_len(b: &[u8]) -> (r: usize)
    ensures
        r <= b@.len(),
        exists|cs: Seq<Cmd>| all_fit(cs) && #[trigger] log_bytes(cs) == b@.subrange(0, r as int),
        r < b@.len() ==> forall|c: Cmd, end: int| #![trigger encoded_at(b@, r as int, end, c)]
            cmd_fits(c) ==> !encoded_at(b@, r as int, end, c),
{
    let mut pos: usize = 0;
    let ghost mut cs: Seq<Cmd> = Seq::empty();
    proof {
        assert(b@.subrange(0, 0) =~= log_bytes(cs));
    }
    loop
        invariant
            pos <= b@.len(),
            all_fit(cs),
            log_bytes(cs) == b@.subrange(0, pos as int),
        decreases b@.len() - pos,
    {
        match decode(b, pos) {
            Ok(Some((op, end))) => {
                proof {
                    lemma_log_push(cs, op@);
                    assert(b@.subrange(0, end as int) =~= b@.subrange(0, pos as int) + b@.subrange(pos as int, end as int));
                    cs = cs.push(op@);
                    assert forall|i: int| 0 <= i < cs.len() implies #[trigger] cmd_fits(cs[i]) by {
                        if i < cs.len() - 1 {
                            assert(cs[i] == cs.drop_last()[i]);
                        }
                    }
                }
                pos = end;
            },
            _ => {
                return pos;
            },
        }
    }
}

/// The whole of `b` is one record.
pub open spec fn is_record(b: Seq<u8>, c: Cmd) -> bool {
    cmd_fits(c) && b == encode_cmd(c)
}

/// Reads the value out of the bytes of one assignment record. Fails with
/// `UnKnownCommand` where the bytes are a removal record, and with `Serde`
/// where they are not one whole record.
pub fn value_of_record(b: &[u8]) -> (r: Result<String, KvError>)
    ensures
        forall|k: Seq<char>, v: Seq<char>| #[trigger] is_record(b@, Cmd::Put(k, v)) ==> (r matches Ok(s) && s@ == v),
        forall|k: Seq<char>| #[trigger] is_record(b@, Cmd::Rm(k)) ==> (r matches Err(KvError::UnKnownCommand)),
        r matches Ok(s) ==> exists|k: Seq<char>| #[trigger] is_record(b@, Cmd::Put(k, s@)),
        (r matches Err(KvError::Serde(_))) <==> !(exists|c: Cmd| #[trigger] is_record(b@, c)),
        r matches Err(e) ==> (e matches KvError::Serde(_) || e matches KvError::UnKnownCommand),
{
    let res = decode(b, 0);
    proof {
        assert forall|c: Cmd| #[trigger] is_record(b@, c) implies res matches Ok(Some((op, end))) && op@ == c && end == b@.len() by {
            assert(encoded_at(b@, 0, b@.len() as int, c)) by {
                assert(b@.subrange(0, b@.len() as int) =~= b@);
            }
            assert(encode_cmd(c).len() > 0);
            if let Ok(Some((op, end))) = res {
                lemma_record_unique(b@, 0, end as int, op@, b@.len() as int, c);
            }
        }
    }
    match res {
        Ok(Some((op, end))) => {
            if end != b.len() {
                return Err(KvError::Serde(CodecError::Trailing));
            }
            proof {
                assert(b@.subrange(0, end as int) =~= b@);
                assert(is_record(b@, op@));
            }
            match op {
                Operation::Put(k, v) => {
                    proof {
                        assert(is_record(b@, Cmd::Put(k@, v@)));
                        assert(exists|kk: Seq<char>| #[trigger] is_record(b@, Cmd::Put(kk, v@)));
                    }
                    let out: Result<String, KvError> = Ok(v);
                    assert(out matches Ok(s) && s@ == v@);
                    out
                },
                Operation::Rm(_) => Err(KvError::UnKnownCommand),
            }
        },
        Ok(None) => Err(KvError::Serde(CodecError::Truncated)),
        Err(e) => Err(KvError::Serde(e)),
    }
}

impl Engine {
    /// Replays the records of segment `fid`, whose bytes are `b`, into the
    /// index, and returns how many bytes they made obsolete. Every key that
    /// the replay leaves in the index points at an assignment of that key in
    /// `b`, or keeps the location it had.
    pub fn replay(&mut self, fid: u64, b: &[u8]) -> (r: Result<u64, KvError>)
        requires
            old(self).wf(),
        ensures
            final(self).wf(),
            final(self).fid == old(self).fid,
            final(self).rubbish == old(self).rubbish,
            r is Ok ==> forall|k: Seq<char>| #[trigger] final(self).map().contains_key(k) ==> (
                old(self).map().contains_key(k) && final(self).map()[k] == old(self).map()[k])
                || locates_put(b@, fid, k, final(self).map()[k]),
            r matches Err(e) ==> e matches KvError::Serde(_),
            r is Ok <==> exists|cs: Seq<Cmd>| all_fit(cs) && #[trigger] log_bytes(cs) == b@,
            forall|cs: Seq<Cmd>| all_fit(cs) && #[trigger] log_bytes(cs) == b@ ==> r == Ok::<u64, KvError>(
                capped(log_rubbish(old(self).map(), fid, cs, 0)))
                && final(self).map() == apply_log(old(self).map(), fid, cs, 0),
    {
        let ghost m0 = self.map();
        let ghost good = exists|cs: Seq<Cmd>| all_fit(cs) && #[trigger] log_bytes(cs) == b@;
        let ghost cs = choose|cs: Seq<Cmd>| all_fit(cs) && #[trigger] log_bytes(cs) == b@;
        let ghost target = apply_log(m0, fid, cs, 0);
        let ghost total = log_rubbish(m0, fid, cs, 0);
        let ghost mut done: nat = 0;
        let ghost mut j: int = 0;
        let ghost mut seen: Seq<Cmd> = Seq::empty();
        proof {
            assert(b@.subrange(0, 0) =~= log_bytes(seen));
            if good {
                assert(b@.subrange(0, b@.len() as int) =~= b@);
                assert(cs.subrange(0, cs.len() as int) =~= cs);
            }
        }
        let mut pos: usize = 0;
        let mut acc: u64 = 0;
        loop
            invariant
                self.wf(),
                self.fid == old(self).fid,
                self.rubbish == old(self).rubbish,
                m0 == old(self).map(),
                pos <= b@.len(),
                forall|k: Seq<char>| #[trigger] self.map().contains_key(k) ==> (
                    m0.contains_key(k) && self.map()[k] == m0[k]) || locates_put(b@, fid, k, self.map()[k]),
                good == exists|cs: Seq<Cmd>| all_fit(cs) && #[trigger] log_bytes(cs) == b@,
                good ==> all_fit(cs) && log_bytes(cs) == b@,
                target == apply_log(m0, fid, cs, 0),
                good ==> 0 <= j <= cs.len() && b@.subrange(pos as int, b@.len() as int) == log_bytes(
                    cs.subrange(j, cs.len() as int),
                ) && apply_log(self.map(), fid, cs.subrange(j, cs.len() as int), pos as int) == target
                    && done + log_rubbish(self.map(), fid, cs.subrange(j, cs.len() as int), pos as int) == total,
                total == log_rubbish(m0, fid, cs, 0),
                good ==> acc == capped(done),
                all_fit(seen),
                log_bytes(seen) == b@.subrange(0, pos as int),
            decreases b@.len() - pos,
        {
            let ghost rest = cs.subrange(j, cs.len() as int);
            proof {
                if good && j < cs.len() {
                    lemma_log_first(rest);
                    assert(cmd_fits(cs[j]));
                    assert(encoded_at(b@, pos as int, pos + encode_cmd(rest[0]).len(), rest[0])) by {
                        assert(b@.subrange(pos as int, pos + encode_cmd(rest[0]).len()) =~= b@.subrange(pos as int, b@.len() as int).subrange(0, encode_cmd(rest[0]).len() as int));
                    }
                    lemma_cmd_nonempty(rest[0]);
                }
            }
            let res = decode(b, pos);
            proof {
                if good {
                    if j == cs.len() {
                        assert(rest.len() == 0);
                        assert(b@.subrange(pos as int, b@.len() as int).len() == 0);
                    } else {
                        if res is Ok && res->Ok_0 is Some {
                            let (op, end) = res->Ok_0->Some_0;
                            lemma_record_unique(b@, pos as int, end as int, op@, pos + encode_cmd(rest[0]).len(), rest[0]);
                        }
                    }
                }
            }
            match res {
                Ok(None) => {
                    proof {
                        if good {
                            if j < cs.len() {
                                assert(false);
                            }
                            assert(rest =~= Seq::<Cmd>::empty());
                        }
                        assert forall|cs2: Seq<Cmd>| all_fit(cs2) && #[trigger] log_bytes(cs2) == b@ implies
                            self.map() == apply_log(m0, fid, cs2, 0) && acc == capped(log_rubbish(m0, fid, cs2, 0)) by {
                            lemma_log_unique(cs, cs2);
                        }
                        assert(b@.subrange(0, pos as int) =~= b@);
                        assert(log_bytes(seen) == b@);
                    }
                    return Ok(acc);
                },
                Ok(Some((op, end))) => {
                    let ghost mprev = self.map();
                    let ghost op_view = op@;
                    let n = end - pos;
                    match op {
                        Operation::Put(k, v) => {
                            let ghost kv = k@;
                            let p = Pointer::new(fid, pos as u64, n as u64);
                            let ghost mb = self.map();
                            proof {
                                assert(encoded_at(b@, p.start as int, p.start + p.len, Cmd::Put(kv, v@)));
                                assert(locates_put(b@, fid, kv, p));
                            }
                            if let Some(prev) = self.index.insert(k, p) {
                                acc = acc.saturating_add(prev.len);
                            }
                            proof {
                                assert forall|q: Seq<char>| #[trigger] self.map().contains_key(q) implies (
                                    m0.contains_key(q) && self.map()[q] == m0[q]) || locates_put(b@, fid, q, self.map()[q]) by {
                                    if q != kv {
                                        assert(mb.contains_key(q));
                                    }
                                }
                            }
                        },
                        Operation::Rm(k) => {
                            let ghost mb = self.map();
                            if let Some(prev) = self.index.remove(&k) {
                                acc = acc.saturating_add(prev.len);
                            }
                            proof {
                                assert forall|q: Seq<char>| #[trigger] self.map().contains_key(q) implies (
                                    m0.contains_key(q) && self.map()[q] == m0[q]) || locates_put(b@, fid, q, self.map()[q]) by {
                                    assert(mb.contains_key(q));
                                }
                            }
                            acc = acc.saturating_add(n as u64);
                        },
                    }
                    proof {
                        if good {
                            assert(self.map() =~= replay_step(mprev, fid, rest[0], pos as int));
                            let here: nat = match rest[0] {
                                Cmd::Put(k, _) => prior_len(mprev, k) as nat,
                                Cmd::Rm(k) => prior_len(mprev, k) as nat + encode_cmd(rest[0]).len(),
                            };
                            assert(acc == capped(done + here));
                            done = done + here;
                            assert(rest.drop_first() =~= cs.subrange(j + 1, cs.len() as int));
                            assert(b@.subrange(end as int, b@.len() as int) =~= b@.subrange(pos as int, b@.len() as int).subrange(
                                encode_cmd(rest[0]).len() as int, b@.subrange(pos as int, b@.len() as int).len() as int));
                            j = j + 1;
                        }
                    }
                    proof {
                        lemma_log_push(seen, op_view);
                        assert(b@.subrange(0, end as int) =~= b@.subrange(0, pos as int) + b@.subrange(pos as int, end as int));
                        let prev = seen;
                        seen = seen.push(op_view);
                        assert forall|i: int| 0 <= i < seen.len() implies #[trigger] cmd_fits(seen[i]) by {
                            if i < seen.len() - 1 {
                                assert(seen[i] == prev[i]);
                            }
                        }
                    }
                    pos = end;
                },
                Err(e) => {
                    proof {
                        if good {
                            assert(j < cs.len());
                            assert(false);
                        }
                    }
                    return Err(KvError::Serde(e));
                },
            }
        }
    }

    /// Plans a compaction: the bytes of a segment that holds one assignment
    /// for each pair of `live`, and an index that points each key into that
    /// segment, numbered `COMPACTED_FID`. The active segment becomes
    /// `FIRST_ACTIVE_FID` and nothing is obsolete any more.
    pub fn compact(&mut self, live: &Vec<(String, String)>) -> (r: Vec<u8>)
        requires
            forall|i: int, j: int| 0 <= i < live@.len() && 0 <= j < live@.len() && i != j
                ==> #[trigger] live@[i].0@ != #[trigger] live@[j].0@,
        ensures
            final(self).wf(),
            final(self).fid == FIRST_ACTIVE_FID,
            final(self).rubbish == 0,
            forall|k: Seq<char>| #[trigger] final(self).map().contains_key(k) <==> exists|i: int|
                0 <= i < live@.len() && #[trigger] live@[i].0@ == k,
            forall|i: int| 0 <= i < live@.len() ==> {
                let p = #[trigger] final(self).map()[live@[i].0@];
                p.fid == COMPACTED_FID && encoded_at(r@, p.start as int, p.start + p.len, Cmd::Put(live@[i].0@, live@[i].1@))
                    && p.start == log_bytes(puts_of(live@.subrange(0, i))).len()
                    && p.len == encode_cmd(Cmd::Put(live@[i].0@, live@[i].1@)).len()
            },
            r@ == log_bytes(puts_of(live@)),
            all_fit(puts_of(live@)),
    {
        let mut out: Vec<u8> = Vec::new();
        let mut index = Index::new();
        let mut i: usize = 0;
        while i < live.len()
            invariant
                index.wf(),
                0 <= i <= live@.len(),
                forall|i: int, j: int| 0 <= i < live@.len() && 0 <= j < live@.len() && i != j
                    ==> #[trigger] live@[i].0@ != #[trigger] live@[j].0@,
                forall|k: Seq<char>| #[trigger] index.view().contains_key(k) <==> exists|j: int|
                    0 <= j < i && #[trigger] live@[j].0@ == k,
                forall|j: int| 0 <= j < i ==> {
                    let p = #[trigger] index.view()[live@[j].0@];
                    p.fid == COMPACTED_FID && encoded_at(out@, p.start as int, p.start + p.len, Cmd::Put(live@[j].0@, live@[j].1@))
                        && p.start == log_bytes(puts_of(live@.subrange(0, j))).len()
                        && p.len == encode_cmd(Cmd::Put(live@[j].0@, live@[j].1@)).len()
                },
                out@ == log_bytes(puts_of(live@.subrange(0, i as int))),
                all_fit(puts_of(live@.subrange(0, i as int))),
            decreases live@.len() - i,
        {
            let k = live[i].0.clone();
            let v = live[i].1.clone();
            let op = Operation::Put(k, v);
            let mut bytes = encode(&op);
            let start = out.len();
            let n = bytes.len();
            let ghost before = out@;
            let ghost added = bytes@;
            let ghost m = index.view();
            proof {
                let cs = puts_of(live@.subrange(0, i as int));
                lemma_log_push(cs, op@);
                assert(puts_of(live@.subrange(0, i + 1)) =~= cs.push(op@));
            }
            out.append(&mut bytes);
            let key = live[i].0.clone();
            index.insert(key, Pointer::new(COMPACTED_FID, start as u64, n as u64));
            proof {
                assert(out@.subrange(start as int, start + n) =~= added);
                assert forall|j: int| 0 <= j < i + 1 implies {
                    let p = #[trigger] index.view()[live@[j].0@];
                    p.fid == COMPACTED_FID && encoded_at(out@, p.start as int, p.start + p.len, Cmd::Put(live@[j].0@, live@[j].1@))
                } by {
                    if j < i {
                        let p = m[live@[j].0@];
                        lemma_encoded_at_extend(before, added, p.start as int, p.start + p.len, Cmd::Put(live@[j].0@, live@[j].1@));
                    }
                }
                assert forall|k: Seq<char>| #[trigger] index.view().contains_key(k) <==> exists|j: int|
                    0 <= j < i + 1 && #[trigger] live@[j].0@ == k by {
                    if k == live@[i as int].0@ {
                        assert(live@[i as int].0@ == k);
                    }
                }
            }
            i = i + 1;
        }
        proof {
            assert(live@.subrange(0, live@.len() as int) =~= live@);
        }
        self.index = index;
        self.fid = FIRST_ACTIVE_FID;
        self.rubbish = 0;
        out
    }
}

} // verus!
