use vstd::prelude::*;
use crate::codec::{cmd_fits, encode_cmd, encoded_at, lemma_encoded_at_extend, Cmd};
use crate::engine::{
    all_fit, apply_log, is_record, log_bytes, prior_len, puts_of, replay_step, sat_add, COMPACT_THRESHOLD,
};
use crate::pointer::Pointer;

verus! {

/// What the records `cs` leave each key bound to, starting from the bindings `vm`.
pub open spec fn live_from(vm: Map<Seq<char>, Seq<char>>, cs: Seq<Cmd>) -> Map<Seq<char>, Seq<char>>
    decreases cs.len(),
{
    if cs.len() == 0 {
        vm
    } else {
        let next = match cs[0] {
            Cmd::Put(k, v) => vm.insert(k, v),
            Cmd::Rm(k) => vm.remove(k),
        };
        live_from(next, cs.drop_first())
    }
}

/// Persistence: replaying the log that a sequence of assignments and
/// removals wrote rebuilds an index with exactly the keys that the sequence
/// leaves live, each pointing at a record whose value is the latest one
/// assigned to it.
pub proof fn lemma_persistence(fid: u64, cs: Seq<Cmd>)
    requires
        all_fit(cs),
        log_bytes(cs).len() <= u64::MAX,
    ensures
        apply_log(Map::empty(), fid, cs, 0).dom() == live_from(Map::empty(), cs).dom(),
        forall|k: Seq<char>| #[trigger] apply_log(Map::empty(), fid, cs, 0).contains_key(k) ==> {
            let p = apply_log(Map::empty(), fid, cs, 0)[k];
            p.fid == fid && is_record(
                log_bytes(cs).subrange(p.start as int, p.start + p.len),
                Cmd::Put(k, live_from(Map::empty(), cs)[k]),
            )
        },
{
    let m0 = Map::<Seq<char>, Pointer>::empty();
    let vm0 = Map::<Seq<char>, Seq<char>>::empty();
    let none = Map::<u64, Seq<u8>>::empty();
    assert(m0.dom() =~= vm0.dom());
    lemma_agrees_in_step(m0, vm0, none, fid, cs, Seq::empty());
    assert(Seq::<u8>::empty() + log_bytes(cs) =~= log_bytes(cs));
    let segs = none.insert(fid, log_bytes(cs));
    let m = apply_log(m0, fid, cs, 0);
    assert forall|k: Seq<char>| #[trigger] m.contains_key(k) implies m[k].fid == fid by {
        assert(segs.contains_key(m[k].fid));
    }
}

/// Read-your-write: once an assignment of `k` to `v` is recorded at `start`
/// of the active segment, the index leads to bytes that read back as `v`;
/// once `k` is then removed, the index has no entry for it.
pub proof fn lemma_read_your_write(
    m: Map<Seq<char>, Pointer>,
    fid: u64,
    k: Seq<char>,
    v: Seq<char>,
    start: u64,
    seg: Seq<u8>,
)
    requires
        cmd_fits(Cmd::Put(k, v)),
        start + encode_cmd(Cmd::Put(k, v)).len() <= u64::MAX,
        encoded_at(seg, start as int, start + encode_cmd(Cmd::Put(k, v)).len(), Cmd::Put(k, v)),
    ensures
        ({
            let m2 = m.insert(k, Pointer { fid, start, len: encode_cmd(Cmd::Put(k, v)).len() as u64 });
            m2.contains_key(k) && is_record(seg.subrange(m2[k].start as int, m2[k].start + m2[k].len), Cmd::Put(k, v))
                && !m2.remove(k).contains_key(k)
        }),
{
}

/// The index `m` and the bindings `vm` agree on the segments `segs`: the
/// same keys, each pointing at an assignment of its value in its segment.
pub open spec fn agrees_in(m: Map<Seq<char>, Pointer>, vm: Map<Seq<char>, Seq<char>>, segs: Map<u64, Seq<u8>>) -> bool {
    &&& m.dom() == vm.dom()
    &&& forall|k: Seq<char>| #[trigger] m.contains_key(k) ==> segs.contains_key(m[k].fid) && encoded_at(
        segs[m[k].fid],
        m[k].start as int,
        m[k].start + m[k].len,
        Cmd::Put(k, vm[k]),
    ) && cmd_fits(Cmd::Put(k, vm[k]))
}

proof fn lemma_agrees_in_step(
    m: Map<Seq<char>, Pointer>,
    vm: Map<Seq<char>, Seq<char>>,
    segs: Map<u64, Seq<u8>>,
    fid: u64,
    cs: Seq<Cmd>,
    pre: Seq<u8>,
)
    requires
        all_fit(cs),
        pre.len() + log_bytes(cs).len() <= u64::MAX,
        agrees_in(m, vm, segs.insert(fid, pre)),
    ensures
        agrees_in(apply_log(m, fid, cs, pre.len() as int), live_from(vm, cs), segs.insert(fid, pre + log_bytes(cs))),
    decreases cs.len(),
{
    if cs.len() == 0 {
        assert(pre + log_bytes(cs) =~= pre);
    } else {
        let c = cs[0];
        let e = encode_cmd(c);
        assert(cmd_fits(c));
        let pre2 = pre + e;
        let m2 = replay_step(m, fid, c, pre.len() as int);
        let vm2 = match c {
            Cmd::Put(k, v) => vm.insert(k, v),
            Cmd::Rm(k) => vm.remove(k),
        };
        let s1 = segs.insert(fid, pre);
        let s2 = segs.insert(fid, pre2);
        assert(log_bytes(cs) == e + log_bytes(cs.drop_first()));
        assert forall|k: Seq<char>| #[trigger] m.contains_key(k) implies s2.contains_key(m[k].fid) && encoded_at(
            s2[m[k].fid],
            m[k].start as int,
            m[k].start + m[k].len,
            Cmd::Put(k, vm[k]),
        ) by {
            if m[k].fid == fid {
                lemma_encoded_at_extend(pre, e, m[k].start as int, m[k].start + m[k].len, Cmd::Put(k, vm[k]));
            } else {
                assert(s2[m[k].fid] == s1[m[k].fid]);
            }
        }
        assert(encoded_at(pre2, pre.len() as int, pre2.len() as int, c)) by {
            assert(pre2.subrange(pre.len() as int, pre2.len() as int) =~= e);
        }
        assert(s2[fid] == pre2);
        assert(m2.dom() =~= vm2.dom());
        assert(agrees_in(m2, vm2, s2));
        assert forall|i: int| 0 <= i < cs.drop_first().len() implies #[trigger] cmd_fits(cs.drop_first()[i]) by {
            assert(cmd_fits(cs[i + 1]));
        }
        lemma_agrees_in_step(m2, vm2, segs, fid, cs.drop_first(), pre2);
        assert(pre2 + log_bytes(cs.drop_first()) =~= pre + log_bytes(cs));
        assert(pre2.len() as int == pre.len() + e.len());
    }
}

/// The index that replaying the segments with ids `fids`, holding the logs
/// `logs`, one after another into `m` leaves.
pub open spec fn replay_segments(m: Map<Seq<char>, Pointer>, fids: Seq<u64>, logs: Seq<Seq<Cmd>>) -> Map<Seq<char>, Pointer>
    decreases fids.len(),
{
    if fids.len() == 0 || logs.len() == 0 {
        m
    } else {
        replay_segments(apply_log(m, fids[0], logs[0], 0), fids.drop_first(), logs.drop_first())
    }
}

/// What the logs `logs`, one after another, leave each key bound to.
pub open spec fn live_after(vm: Map<Seq<char>, Seq<char>>, logs: Seq<Seq<Cmd>>) -> Map<Seq<char>, Seq<char>>
    decreases logs.len(),
{
    if logs.len() == 0 {
        vm
    } else {
        live_after(live_from(vm, logs[0]), logs.drop_first())
    }
}

/// The segments `segs` with the segments `fids` holding the bytes of `logs` added.
pub open spec fn with_segments(segs: Map<u64, Seq<u8>>, fids: Seq<u64>, logs: Seq<Seq<Cmd>>) -> Map<u64, Seq<u8>>
    decreases fids.len(),
{
    if fids.len() == 0 || logs.len() == 0 {
        segs
    } else {
        with_segments(segs.insert(fids[0], log_bytes(logs[0])), fids.drop_first(), logs.drop_first())
    }
}

pub open spec fn logs_fit(logs: Seq<Seq<Cmd>>) -> bool {
    forall|i: int| 0 <= i < logs.len() ==> all_fit(#[trigger] logs[i]) && log_bytes(logs[i]).len() <= u64::MAX
}

proof fn lemma_segments_agree(
    m: Map<Seq<char>, Pointer>,
    vm: Map<Seq<char>, Seq<char>>,
    segs: Map<u64, Seq<u8>>,
    fids: Seq<u64>,
    logs: Seq<Seq<Cmd>>,
)
    requires
        agrees_in(m, vm, segs),
        fids.len() == logs.len(),
        fids.no_duplicates(),
        forall|i: int| 0 <= i < fids.len() ==> !segs.contains_key(#[trigger] fids[i]),
        logs_fit(logs),
    ensures
        agrees_in(replay_segments(m, fids, logs), live_after(vm, logs), with_segments(segs, fids, logs)),
    decreases fids.len(),
{
    if fids.len() > 0 {
        let f = fids[0];
        assert(all_fit(logs[0]) && log_bytes(logs[0]).len() <= u64::MAX);
        let empty = Seq::<u8>::empty();
        assert forall|k: Seq<char>| #[trigger] m.contains_key(k) implies segs.insert(f, empty).contains_key(m[k].fid)
            && segs.insert(f, empty)[m[k].fid] == segs[m[k].fid] by {
            assert(m[k].fid != f);
        }
        assert(agrees_in(m, vm, segs.insert(f, empty)));
        lemma_agrees_in_step(m, vm, segs, f, logs[0], empty);
        assert(empty + log_bytes(logs[0]) =~= log_bytes(logs[0]));
        let segs2 = segs.insert(f, log_bytes(logs[0]));
        assert forall|i: int| 0 <= i < fids.drop_first().len() implies !segs2.contains_key(#[trigger] fids.drop_first()[i]) by {
            assert(fids.drop_first()[i] == fids[i + 1]);
            assert(fids[i + 1] != fids[0]);
        }
        assert forall|i: int| 0 <= i < logs.drop_first().len() implies all_fit(#[trigger] logs.drop_first()[i])
            && log_bytes(logs.drop_first()[i]).len() <= u64::MAX by {
            assert(logs.drop_first()[i] == logs[i + 1]);
        }
        assert(fids.drop_first().no_duplicates()) by {
            assert forall|a: int, b: int| 0 <= a < fids.drop_first().len() && 0 <= b < fids.drop_first().len() && a != b
                implies fids.drop_first()[a] != fids.drop_first()[b] by {
                assert(fids[a + 1] != fids[b + 1]);
            }
        }
        lemma_segments_agree(apply_log(m, f, logs[0], 0), live_from(vm, logs[0]), segs2, fids.drop_first(), logs.drop_first());
    }
}

/// Persistence across segments: replaying, in order, segments that hold
/// the logs `logs` rebuilds an index with exactly the keys that the logs,
/// one after another, leave live, each pointing into its own segment at a
/// record whose value is the latest one assigned to it.
pub proof fn lemma_persistence_segments(fids: Seq<u64>, logs: Seq<Seq<Cmd>>)
    requires
        fids.len() == logs.len(),
        fids.no_duplicates(),
        logs_fit(logs),
    ensures
        ({
            let m = replay_segments(Map::empty(), fids, logs);
            let vm = live_after(Map::empty(), logs);
            let segs = with_segments(Map::empty(), fids, logs);
            &&& m.dom() == vm.dom()
            &&& forall|k: Seq<char>| #[trigger] m.contains_key(k) ==> segs.contains_key(m[k].fid) && is_record(
                segs[m[k].fid].subrange(m[k].start as int, m[k].start + m[k].len),
                Cmd::Put(k, vm[k]),
            )
        }),
{
    let m0 = Map::<Seq<char>, Pointer>::empty();
    let vm0 = Map::<Seq<char>, Seq<char>>::empty();
    assert(m0.dom() =~= vm0.dom());
    lemma_segments_agree(m0, vm0, Map::empty(), fids, logs);
}

/// Bounded growth: an assignment that brings the obsolete count `rubbish`
/// to the threshold calls for compaction, which sets it back to zero, so
/// after every assignment the count is below the threshold.
pub proof fn lemma_rubbish_bounded(m: Map<Seq<char>, Pointer>, rubbish: u64, k: Seq<char>)
    ensures
        ({
            let after = sat_add(rubbish, prior_len(m, k));
            let settled: u64 = if after >= COMPACT_THRESHOLD { 0 } else { after };
            settled < COMPACT_THRESHOLD
        }),
{
}

pub open spec fn keys_unique(live: Seq<(String, String)>) -> bool {
    forall|i: int, j: int| 0 <= i < live.len() && 0 <= j < live.len() && i != j
        ==> #[trigger] live[i].0@ != #[trigger] live[j].0@
}

proof fn lemma_live_of_puts(vm: Map<Seq<char>, Seq<char>>, l: Seq<(String, String)>)
    requires
        keys_unique(l),
    ensures
        forall|k: Seq<char>| #[trigger] live_from(vm, puts_of(l)).contains_key(k) <==> (vm.contains_key(k)
            || exists|i: int| 0 <= i < l.len() && #[trigger] l[i].0@ == k),
        forall|i: int| 0 <= i < l.len() ==> #[trigger] live_from(vm, puts_of(l))[l[i].0@] == l[i].1@,
        forall|k: Seq<char>| vm.contains_key(k) && !(exists|i: int| 0 <= i < l.len() && #[trigger] l[i].0@ == k)
            ==> #[trigger] live_from(vm, puts_of(l))[k] == vm[k],
    decreases l.len(),
{
    if l.len() > 0 {
        let vm2 = vm.insert(l[0].0@, l[0].1@);
        let t = l.drop_first();
        assert(puts_of(l).drop_first() =~= puts_of(t));
        assert(puts_of(l)[0] == Cmd::Put(l[0].0@, l[0].1@));
        assert(keys_unique(t)) by {
            assert forall|i: int, j: int| 0 <= i < t.len() && 0 <= j < t.len() && i != j implies #[trigger] t[i].0@ != #[trigger] t[j].0@ by {
                assert(l[i + 1].0@ != l[j + 1].0@);
            }
        }
        lemma_live_of_puts(vm2, t);
        assert(live_from(vm, puts_of(l)) == live_from(vm2, puts_of(t)));
        assert forall|k: Seq<char>| #[trigger] live_from(vm, puts_of(l)).contains_key(k) <==> (vm.contains_key(k)
            || exists|i: int| 0 <= i < l.len() && #[trigger] l[i].0@ == k) by {
            if exists|i: int| 0 <= i < l.len() && #[trigger] l[i].0@ == k {
                let i = choose|i: int| 0 <= i < l.len() && #[trigger] l[i].0@ == k;
                if i > 0 {
                    assert(t[i - 1].0@ == k);
                }
            }
            if exists|i: int| 0 <= i < t.len() && #[trigger] t[i].0@ == k {
                let i = choose|i: int| 0 <= i < t.len() && #[trigger] t[i].0@ == k;
                assert(l[i + 1].0@ == k);
            }
        }
        assert forall|i: int| 0 <= i < l.len() implies #[trigger] live_from(vm, puts_of(l))[l[i].0@] == l[i].1@ by {
            if i == 0 {
                assert forall|j: int| 0 <= j < t.len() implies #[trigger] t[j].0@ != l[0].0@ by {
                    assert(l[j + 1].0@ != l[0].0@);
                }
            } else {
                assert(t[i - 1] == l[i]);
            }
        }
        assert forall|k: Seq<char>| vm.contains_key(k) && !(exists|i: int| 0 <= i < l.len() && #[trigger] l[i].0@ == k)
            implies #[trigger] live_from(vm, puts_of(l))[k] == vm[k] by {
            assert(l[0].0@ != k);
            assert forall|j: int| 0 <= j < t.len() implies #[trigger] t[j].0@ != k by {
                assert(l[j + 1].0@ != k);
            }
        }
    }
}

/// Durability across compaction: replaying the segment that compaction
/// writes from the live bindings `live` rebuilds an index whose keys are
/// exactly those of `live`, each pointing at a record of its value. Crash
/// recovery replays the same bytes from the staging file, so it restores
/// the same bindings.
pub proof fn lemma_compaction_durable(fid: u64, live: Seq<(String, String)>)
    requires
        keys_unique(live),
        all_fit(puts_of(live)),
        log_bytes(puts_of(live)).len() <= u64::MAX,
    ensures
        forall|k: Seq<char>| #[trigger] apply_log(Map::empty(), fid, puts_of(live), 0).contains_key(k)
            <==> exists|i: int| 0 <= i < live.len() && #[trigger] live[i].0@ == k,
        forall|i: int| 0 <= i < live.len() ==> {
            let p = #[trigger] apply_log(Map::empty(), fid, puts_of(live), 0)[live[i].0@];
            p.fid == fid && is_record(
                log_bytes(puts_of(live)).subrange(p.start as int, p.start + p.len),
                Cmd::Put(live[i].0@, live[i].1@),
            )
        },
{
    lemma_persistence(fid, puts_of(live));
    lemma_live_of_puts(Map::empty(), live);
    assert forall|i: int| 0 <= i < live.len() implies apply_log(Map::empty(), fid, puts_of(live), 0).contains_key(
        #[trigger] live[i].0@) by {
        assert(live_from(Map::empty(), puts_of(live)).contains_key(live[i].0@));
    }
}

} // verus!
