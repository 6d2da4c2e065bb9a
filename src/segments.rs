use vstd::prelude::*;
use vstd::utf8::encode_utf8;

verus! {

pub open spec fn is_digit(c: u8) -> bool {
    48 <= c <= 57
}

/// The number that the decimal digits `b` spell.
pub open spec fn dec_value(b: Seq<u8>) -> nat
    decreases b.len(),
{
    if b.len() == 0 {
        0
    } else {
        dec_value(b.drop_last()) * 10 + (b.last() - 48) as nat
    }
}

pub open spec fn all_digits(b: Seq<u8>) -> bool {
    forall|i: int| 0 <= i < b.len() ==> is_digit(#[trigger] b[i])
}

/// The bytes of the extension that segment files carry: ".log".
pub open spec fn log_suffix() -> Seq<u8> {
    seq![46u8, 108u8, 111u8, 103u8]
}

/// The segment id that a file name gives: the name is a non-empty run of
/// decimal digits that fits in a `u64`, followed by ".log".
pub open spec fn log_id(name: Seq<u8>) -> Option<u64> {
    let n = name.len() - 4;
    if name.len() > 4 && name.subrange(n, name.len() as int) == log_suffix() && all_digits(
        name.subrange(0, n),
    ) && dec_value(name.subrange(0, n)) <= u64::MAX {
        Some(dec_value(name.subrange(0, n)) as u64)
    } else {
        None
    }
}

/// The segment id of the file named `name`, if it names a segment.
pub fn parse_log_name(name: &str) -> (r: Option<u64>)
    ensures
        r == log_id(encode_utf8(name@)),
{
    let b = name.as_bytes();
    let len = b.len();
    if len <= 4 || b[len - 4] != 46 || b[len - 3] != 108 || b[len - 2] != 111 || b[len - 1] != 103 {
        proof {
            if len > 4 {
                let s = b@.subrange(len - 4, len as int);
                if s == log_suffix() {
                    assert(s[0] == b@[len - 4] && s[1] == b@[len - 3] && s[2] == b@[len - 2] && s[3] == b@[len - 1]);
                }
            }
        }
        return None;
    }
    proof {
        assert(b@.subrange(len - 4, len as int) =~= log_suffix());
    }
    let n = len - 4;
    let ghost stem = b@.subrange(0, n as int);
    let mut v: u64 = 0;
    let mut i: usize = 0;
    while i < n
        invariant
            n == len - 4,
            len == b@.len(),
            len > 4,
            b@ == encode_utf8(name@),
            b@.subrange(len - 4, len as int) == log_suffix(),
            stem == b@.subrange(0, n as int),
            0 <= i <= n,
            all_digits(stem.subrange(0, i as int)),
            v == dec_value(stem.subrange(0, i as int)),
        decreases n - i,
    {
        let c = b[i];
        if c < 48 || c > 57 {
            proof {
                assert(stem[i as int] == c);
                assert(!is_digit(stem[i as int]));
                assert(!all_digits(stem));
            }
            return None;
        }
        let d = (c - 48) as u64;
        proof {
            assert(stem.subrange(0, i + 1).drop_last() =~= stem.subrange(0, i as int));
            assert(stem.subrange(0, i + 1).last() == c);
        }
        if v > (u64::MAX - d) / 10 {
            proof {
                assert(v * 10 + d > u64::MAX) by (nonlinear_arith)
                    requires v > (u64::MAX - d) / 10, d <= 9;
                if all_digits(stem) {
                    assert(stem.subrange(0, n as int) =~= stem);
                    lemma_dec_monotone(stem, i + 1, n as int);
                }
            }
            return None;
        }
        proof {
            assert(v * 10 + d <= u64::MAX) by (nonlinear_arith)
                requires v <= (u64::MAX - d) / 10, d <= 9;
        }
        v = v * 10 + d;
        i = i + 1;
        proof {
            assert forall|j: int| 0 <= j < i implies is_digit(#[trigger] stem.subrange(0, i as int)[j]) by {
                if j < i - 1 {
                    assert(stem.subrange(0, i as int)[j] == stem.subrange(0, i - 1)[j]);
                }
            }
        }
    }
    proof {
        assert(stem.subrange(0, n as int) =~= stem);
    }
    Some(v)
}

/// A longer run of digits never spells a smaller number.
proof fn lemma_dec_monotone(s: Seq<u8>, i: int, j: int)
    requires
        0 <= i <= j <= s.len(),
        all_digits(s.subrange(0, j)),
    ensures
        dec_value(s.subrange(0, i)) <= dec_value(s.subrange(0, j)),
    decreases j - i,
{
    if i < j {
        assert(s.subrange(0, j).drop_last() =~= s.subrange(0, j - 1));
        assert forall|t: int| 0 <= t < j - 1 implies is_digit(#[trigger] s.subrange(0, j - 1)[t]) by {
            assert(s.subrange(0, j - 1)[t] == s.subrange(0, j)[t]);
        }
        lemma_dec_monotone(s, i, j - 1);
        assert(dec_value(s.subrange(0, j)) == dec_value(s.subrange(0, j - 1)) * 10 + (s.subrange(0, j).last() - 48) as nat);
        assert(dec_value(s.subrange(0, j - 1)) <= dec_value(s.subrange(0, j - 1)) * 10) by (nonlinear_arith);
    }
}

pub open spec fn sorted(s: Seq<u64>) -> bool {
    forall|i: int, j: int| 0 <= i < j < s.len() ==> s[i] <= s[j]
}

/// The segment ids that `names` give, one for each name that names a
/// segment, in the order of the names.
pub open spec fn ids_of(names: Seq<String>) -> Seq<u64>
    decreases names.len(),
{
    if names.len() == 0 {
        Seq::empty()
    } else {
        let rest = ids_of(names.drop_last());
        match log_id(encode_utf8(names.last()@)) {
            Some(x) => rest.push(x),
            None => rest,
        }
    }
}

/// The ids of the segment files among `names`, in ascending order, each
/// as many times as names give it.
pub fn segment_ids(names: &Vec<String>) -> (r: Vec<u64>)
    ensures
        sorted(r@),
        r@.to_multiset() == ids_of(names@).to_multiset(),
        forall|x: u64| r@.contains(x) <==> exists|i: int|
            0 <= i < names@.len() && #[trigger] log_id(encode_utf8(names@[i]@)) == Some(x),
{
    let mut out: Vec<u64> = Vec::new();
    let mut i: usize = 0;
    while i < names.len()
        invariant
            0 <= i <= names@.len(),
            sorted(out@),
            out@.to_multiset() == ids_of(names@.subrange(0, i as int)).to_multiset(),
            forall|x: u64| out@.contains(x) <==> exists|j: int|
                0 <= j < i && #[trigger] log_id(encode_utf8(names@[j]@)) == Some(x),
        decreases names@.len() - i,
    {
        proof {
            assert(names@.subrange(0, i + 1).drop_last() =~= names@.subrange(0, i as int));
            assert(names@.subrange(0, i + 1).last() == names@[i as int]);
        }
        let parsed = parse_log_name(names[i].as_str());
        if let Some(id) = parsed {
            let mut p: usize = 0;
            while p < out.len() && out[p] <= id
                invariant
                    0 <= p <= out@.len(),
                    forall|t: int| 0 <= t < p ==> out@[t] <= id,
                decreases out@.len() - p,
            {
                p = p + 1;
            }
            let ghost before = out@;
            out.insert(p, id);
            proof {
                assert(out@ == before.insert(p as int, id));
                vstd::seq_lib::to_multiset_insert(before, p as int, id);
                vstd::seq_lib::to_multiset_build(ids_of(names@.subrange(0, i as int)), id);
                assert forall|a: int, c: int| 0 <= a < c < out@.len() implies out@[a] <= out@[c] by {
                    if p < before.len() {
                        assert(id < before[p as int]);
                    }
                }
                assert forall|x: u64| out@.contains(x) <==> exists|j: int|
                    0 <= j < i + 1 && #[trigger] log_id(encode_utf8(names@[j]@)) == Some(x) by {
                    if out@.contains(x) {
                        let t = choose|t: int| 0 <= t < out@.len() && out@[t] == x;
                        if t != p {
                            let t2 = if t < p { t } else { t - 1 };
                            assert(before[t2] == x);
                            assert(before.contains(x));
                        } else {
                            assert(log_id(encode_utf8(names@[i as int]@)) == Some(x));
                        }
                    }
                    if exists|j: int| 0 <= j < i + 1 && #[trigger] log_id(encode_utf8(names@[j]@)) == Some(x) {
                        let j = choose|j: int| 0 <= j < i + 1 && #[trigger] log_id(encode_utf8(names@[j]@)) == Some(x);
                        if j == i {
                            assert(out@[p as int] == x);
                        } else {
                            assert(before.contains(x));
                            let t = choose|t: int| 0 <= t < before.len() && before[t] == x;
                            let t2 = if t < p { t } else { t + 1 };
                            assert(out@[t2] == x);
                        }
                    }
                }
            }
        } else {
            proof {
                assert forall|x: u64| out@.contains(x) <==> exists|j: int|
                    0 <= j < i + 1 && #[trigger] log_id(encode_utf8(names@[j]@)) == Some(x) by {
                    if exists|j: int| 0 <= j < i + 1 && #[trigger] log_id(encode_utf8(names@[j]@)) == Some(x) {
                        let j = choose|j: int| 0 <= j < i + 1 && #[trigger] log_id(encode_utf8(names@[j]@)) == Some(x);
                        assert(j != i);
                    }
                }
            }
        }
        i = i + 1;
    }
    proof {
        assert(names@.subrange(0, names@.len() as int) =~= names@);
    }
    out
}

} // verus!
