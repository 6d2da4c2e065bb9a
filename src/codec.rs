use vstd::prelude::*;
use vstd::utf8::*;
use vstd::slice::slice_subrange;

verus! {

broadcast use {encode_utf8_valid_utf8, encode_utf8_decode_utf8, decode_utf8_encode_utf8};

/// A record of the log: a key gets a value, or a key is removed.
#[derive(Debug)]
pub enum Operation {
    Put(String, String),
    Rm(String),
}

/// The mathematical content of an `Operation`.
pub enum Cmd {
    Put(Seq<char>, Seq<char>),
    Rm(Seq<char>),
}

impl View for Operation {
    type V = Cmd;

    open spec fn view(&self) -> Cmd {
        match self {
            Operation::Put(k, v) => Cmd::Put(k@, v@),
            Operation::Rm(k) => Cmd::Rm(k@),
        }
    }
}

/// Why bytes could not be read as a record.
#[derive(Clone, Copy, Debug, PartialEq, Eq, Structural)]
pub enum CodecError {
    /// The bytes end inside a record.
    Truncated,
    /// The first byte of a record names no kind of record.
    BadTag,
    /// A key or value is not valid UTF-8.
    BadText,
    /// Bytes follow the record where none should.
    Trailing,
}

pub const TAG_SET: u8 = 0;

pub const TAG_RM: u8 = 1;

/// The eight little-endian bytes of `n`.
pub open spec fn u64_le(n: u64) -> Seq<u8> {
    seq![
        n as u8,
        (n >> 8) as u8,
        (n >> 16) as u8,
        (n >> 24) as u8,
        (n >> 32) as u8,
        (n >> 40) as u8,
        (n >> 48) as u8,
        (n >> 56) as u8,
    ]
}

/// The number whose little-endian bytes are the first eight of `b`.
pub open spec fn le_u64(b: Seq<u8>) -> u64 {
    (b[0] as u64) | ((b[1] as u64) << 8) | ((b[2] as u64) << 16) | ((b[3] as u64) << 24) | ((
    b[4] as u64) << 32) | ((b[5] as u64) << 40) | ((b[6] as u64) << 48) | ((b[7] as u64) << 56)
}

/// One text field: its UTF-8 length as eight little-endian bytes, then its UTF-8 bytes.
pub open spec fn field(s: Seq<char>) -> Seq<u8> {
    u64_le(encode_utf8(s).len() as u64) + encode_utf8(s)
}

/// A text field can be written when its UTF-8 length fits the length prefix.
pub open spec fn fits(s: Seq<char>) -> bool {
    encode_utf8(s).len() < 0x1_0000_0000_0000_0000
}

/// Every text field of the record can be written.
pub open spec fn cmd_fits(c: Cmd) -> bool {
    match c {
        Cmd::Put(k, v) => fits(k) && fits(v),
        Cmd::Rm(k) => fits(k),
    }
}

/// The bytes of one record: a tag byte followed by its fields.
pub open spec fn encode_cmd(c: Cmd) -> Seq<u8> {
    match c {
        Cmd::Put(k, v) => seq![TAG_SET] + field(k) + field(v),
        Cmd::Rm(k) => seq![TAG_RM] + field(k),
    }
}

/// `b[start..end]` is exactly the encoding of `c`.
pub open spec fn encoded_at(b: Seq<u8>, start: int, end: int, c: Cmd) -> bool {
    0 <= start <= end <= b.len() && b.subrange(start, end) == encode_cmd(c)
}

proof fn lemma_le_round_trip(n: u64)
    ensures
        le_u64(u64_le(n)) == n,
{
    let b = u64_le(n);
    let (b0, b1, b2, b3, b4, b5, b6, b7) = (b[0], b[1], b[2], b[3], b[4], b[5], b[6], b[7]);
    assert(b0 == n as u8 && b1 == (n >> 8) as u8 && b2 == (n >> 16) as u8 && b3 == (n >> 24) as u8
        && b4 == (n >> 32) as u8 && b5 == (n >> 40) as u8 && b6 == (n >> 48) as u8 && b7 == (n
        >> 56) as u8);
    assert(((b0 == n as u8 && b1 == (n >> 8) as u8 && b2 == (n >> 16) as u8 && b3 == (n >> 24) as u8
        && b4 == (n >> 32) as u8 && b5 == (n >> 40) as u8 && b6 == (n >> 48) as u8 && b7 == (n
        >> 56) as u8)) ==> n == ((b0 as u64) | ((b1 as u64) << 8) | ((b2 as u64) << 16) | ((
    b3 as u64) << 24) | ((b4 as u64) << 32) | ((b5 as u64) << 40) | ((b6 as u64) << 48) | ((
    b7 as u64) << 56))) by (bit_vector);
}

proof fn lemma_le_determines(b: Seq<u8>)
    requires
        b.len() == 8,
    ensures
        u64_le(le_u64(b)) == b,
{
    let (b0, b1, b2, b3, b4, b5, b6, b7) = (b[0], b[1], b[2], b[3], b[4], b[5], b[6], b[7]);
    let n = le_u64(b);
    assert(n == ((b0 as u64) | ((b1 as u64) << 8) | ((b2 as u64) << 16) | ((b3 as u64) << 24) | ((
    b4 as u64) << 32) | ((b5 as u64) << 40) | ((b6 as u64) << 48) | ((b7 as u64) << 56)) ==> (b0
        == n as u8 && b1 == (n >> 8) as u8 && b2 == (n >> 16) as u8 && b3 == (n >> 24) as u8 && b4
        == (n >> 32) as u8 && b5 == (n >> 40) as u8 && b6 == (n >> 48) as u8 && b7 == (n >> 56) as u8))
        by (bit_vector);
    assert(u64_le(n) =~= b);
}

/// Relies on `std::str::from_utf8`: it accepts exactly the valid UTF-8 byte
/// sequences, and the text it returns has those bytes as its encoding.
#[verifier::external_body]
fn text_of_utf8(b: &[u8]) -> (r: Option<String>)
    ensures
        r is Some <==> valid_utf8(b@),
        r matches Some(s) ==> s@ == decode_utf8(b@),
{
    std::str::from_utf8(b).ok().map(|s| s.to_owned())
}

fn push_u64_le(out: &mut Vec<u8>, n: u64)
    ensures
        final(out)@ == old(out)@ + u64_le(n),
{
    out.push(n as u8);
    out.push((n >> 8) as u8);
    out.push((n >> 16) as u8);
    out.push((n >> 24) as u8);
    out.push((n >> 32) as u8);
    out.push((n >> 40) as u8);
    out.push((n >> 48) as u8);
    out.push((n >> 56) as u8);
    assert(final(out)@ =~= old(out)@ + u64_le(n));
}

fn push_field(out: &mut Vec<u8>, s: &String)
    ensures
        final(out)@ == old(out)@ + field(s@),
        fits(s@),
{
    let b = s.as_str().as_bytes();
    let n = b.len();
    push_u64_le(out, n as u64);
    let ghost mid = out@;
    let mut i: usize = 0;
    while i < n
        invariant
            n == b@.len(),
            b@ == encode_utf8(s@),
            0 <= i <= n,
            out@ == mid + b@.subrange(0, i as int),
        decreases n - i,
    {
        out.push(b[i]);
        i = i + 1;
        assert(out@ =~= mid + b@.subrange(0, i as int));
    }
    assert(b@.subrange(0, n as int) =~= b@);
    assert(out@ =~= old(out)@ + field(s@));
}

/// Encodes one record as bytes.
pub fn encode(op: &Operation) -> (r: Vec<u8>)
    ensures
        r@ == encode_cmd(op@),
        cmd_fits(op@),
{
    let mut out: Vec<u8> = Vec::new();
    match op {
        Operation::Put(k, v) => {
            out.push(TAG_SET);
            push_field(&mut out, k);
            push_field(&mut out, v);
            assert(out@ =~= seq![TAG_SET] + field(k@) + field(v@));
        },
        Operation::Rm(k) => {
            out.push(TAG_RM);
            push_field(&mut out, k);
            assert(out@ =~= seq![TAG_RM] + field(k@));
        },
    }
    out
}

fn read_u64_le(b: &[u8], i: usize) -> (r: u64)
    requires
        i + 8 <= b@.len(),
    ensures
        r == le_u64(b@.subrange(i as int, i + 8)),
{
    (b[i] as u64) | ((b[i + 1] as u64) << 8) | ((b[i + 2] as u64) << 16) | ((b[i + 3] as u64)
        << 24) | ((b[i + 4] as u64) << 32) | ((b[i + 5] as u64) << 40) | ((b[i + 6] as u64) << 48)
        | ((b[i + 7] as u64) << 56)
}

/// What a field that starts at `i` would span, if the bytes hold one there.
proof fn lemma_field_at(b: Seq<u8>, i: int, s: Seq<char>)
    requires
        0 <= i,
        i + field(s).len() <= b.len(),
        b.subrange(i, i + field(s).len()) == field(s),
        fits(s),
    ensures
        le_u64(b.subrange(i, i + 8)) == encode_utf8(s).len(),
        b.subrange(i + 8, i + 8 + encode_utf8(s).len()) == encode_utf8(s),
{
    let e = encode_utf8(s);
    lemma_le_round_trip(e.len() as u64);
    assert(b.subrange(i, i + 8) =~= field(s).subrange(0, 8));
    assert(field(s).subrange(0, 8) =~= u64_le(e.len() as u64));
    assert(b.subrange(i + 8, i + 8 + e.len()) =~= field(s).subrange(8, 8 + e.len() as int));
    assert(field(s).subrange(8, 8 + e.len() as int) =~= e);
}

/// Reads one text field at `i`.
fn decode_field(b: &[u8], i: usize) -> (r: Result<(String, usize), CodecError>)
    ensures
        r matches Ok((s, e)) ==> i <= e <= b@.len() && b@.subrange(i as int, e as int) == field(
            s@,
        ) && fits(s@),
        r is Err ==> forall|s: Seq<char>|
            #![trigger field(s)]
            fits(s) ==> !(i + field(s).len() <= b@.len() && b@.subrange(
                i as int,
                i + field(s).len(),
            ) == field(s)),
{
    if b.len() < 8 || i > b.len() - 8 {
        return Err(CodecError::Truncated);
    }
    let n = read_u64_le(b, i);
    let rest = b.len() - i - 8;
    if n > rest as u64 {
        proof {
            assert forall|s: Seq<char>|
                #![trigger field(s)]
                fits(s) implies !(i + field(s).len() <= b@.len() && b@.subrange(
                    i as int,
                    i + field(s).len(),
                ) == field(s)) by {
                if i + field(s).len() <= b@.len() && b@.subrange(i as int, i + field(s).len())
                    == field(s) {
                    lemma_field_at(b@, i as int, s);
                }
            }
        }
        return Err(CodecError::Truncated);
    }
    let end = i + 8 + n as usize;
    let body = slice_subrange(b, i + 8, end);
    match text_of_utf8(body) {
        Some(s) => {
            proof {
                lemma_le_determines(b@.subrange(i as int, i + 8));
                assert(b@.subrange(i as int, end as int) =~= b@.subrange(i as int, i + 8)
                    + body@);
            }
            Ok((s, end))
        },
        None => {
            proof {
                assert forall|s: Seq<char>|
                    #![trigger field(s)]
                    fits(s) implies !(i + field(s).len() <= b@.len() && b@.subrange(
                        i as int,
                        i + field(s).len(),
                    ) == field(s)) by {
                    if i + field(s).len() <= b@.len() && b@.subrange(i as int, i + field(s).len())
                        == field(s) {
                        lemma_field_at(b@, i as int, s);
                        assert(body@ =~= encode_utf8(s));
                    }
                }
            }
            Err(CodecError::BadText)
        },
    }
}

/// Reads the record that begins at byte `start`, and where the next begins.
/// At the end of the bytes there is no record.
pub fn decode(b: &[u8], start: usize) -> (r: Result<Option<(Operation, usize)>, CodecError>)
    requires
        start <= b@.len(),
    ensures
        (start == b@.len()) <==> (r == Ok::<Option<(Operation, usize)>, CodecError>(None)),
        r matches Ok(Some((op, end))) ==> start < end && encoded_at(
            b@,
            start as int,
            end as int,
            op@,
        ) && cmd_fits(op@),
        r is Err ==> forall|c: Cmd, end: int|
            #![trigger encoded_at(b@, start as int, end, c)]
            cmd_fits(c) ==> !encoded_at(b@, start as int, end, c),
{
    if start == b.len() {
        return Ok(None);
    }
    let tag = b[start];
    if tag == TAG_SET {
        match decode_field(b, start + 1) {
            Ok((k, e1)) => match decode_field(b, e1) {
                Ok((v, e2)) => {
                    proof {
                        assert(b@.subrange(start as int, e2 as int) =~= seq![TAG_SET]
                            + b@.subrange(start + 1, e1 as int) + b@.subrange(
                            e1 as int,
                            e2 as int,
                        ));
                    }
                    Ok(Some((Operation::Put(k, v), e2)))
                },
                Err(err) => {
                    proof {
                        assert forall|c: Cmd, end: int|
                            #![trigger encoded_at(b@, start as int, end, c)]
                            cmd_fits(c) implies !encoded_at(b@, start as int, end, c) by {
                            if encoded_at(b@, start as int, end, c) {
                                lemma_cmd_parts(b@, start as int, end, c);
                                if let Cmd::Put(k2, v2) = c {
                                    lemma_field_unique(b@, start + 1, k2, k@);
                                }
                            }
                        }
                    }
                    Err(err)
                },
            },
            Err(err) => {
                proof {
                    assert forall|c: Cmd, end: int|
                        #![trigger encoded_at(b@, start as int, end, c)]
                        cmd_fits(c) implies !encoded_at(b@, start as int, end, c) by {
                        if encoded_at(b@, start as int, end, c) {
                            lemma_cmd_parts(b@, start as int, end, c);
                        }
                    }
                }
                Err(err)
            },
        }
    } else if tag == TAG_RM {
        match decode_field(b, start + 1) {
            Ok((k, e1)) => {
                proof {
                    assert(b@.subrange(start as int, e1 as int) =~= seq![TAG_RM] + b@.subrange(
                        start + 1,
                        e1 as int,
                    ));
                }
                Ok(Some((Operation::Rm(k), e1)))
            },
            Err(err) => {
                proof {
                    assert forall|c: Cmd, end: int|
                        #![trigger encoded_at(b@, start as int, end, c)]
                        cmd_fits(c) implies !encoded_at(b@, start as int, end, c) by {
                        if encoded_at(b@, start as int, end, c) {
                            lemma_cmd_parts(b@, start as int, end, c);
                        }
                    }
                }
                Err(err)
            },
        }
    } else {
        proof {
            assert forall|c: Cmd, end: int|
                #![trigger encoded_at(b@, start as int, end, c)]
                cmd_fits(c) implies !encoded_at(b@, start as int, end, c) by {
                if encoded_at(b@, start as int, end, c) {
                    lemma_cmd_parts(b@, start as int, end, c);
                }
            }
        }
        Err(CodecError::BadTag)
    }
}

/// Where the parts of an encoded record lie.
proof fn lemma_cmd_parts(b: Seq<u8>, start: int, end: int, c: Cmd)
    requires
        encoded_at(b, start, end, c),
    ensures
        end == start + encode_cmd(c).len(),
        match c {
            Cmd::Put(k, v) => b[start] == TAG_SET && b.subrange(start + 1, start + 1 + field(k).len())
                == field(k) && b.subrange(
                start + 1 + field(k).len(),
                start + 1 + field(k).len() + field(v).len(),
            ) == field(v) && end == start + 1 + field(k).len() + field(v).len(),
            Cmd::Rm(k) => b[start] == TAG_RM && b.subrange(start + 1, start + 1 + field(k).len())
                == field(k) && end == start + 1 + field(k).len(),
        },
{
    let e = encode_cmd(c);
    assert(b.subrange(start, end).len() == e.len());
    assert(b[start] == b.subrange(start, end)[0]);
    match c {
        Cmd::Put(k, v) => {
            let fk = field(k);
            let lk = fk.len() as int;
            let fv = field(v);
            let lv = fv.len() as int;
            assert(b.subrange(start + 1, start + 1 + lk) =~= e.subrange(1, 1 + lk));
            assert(e.subrange(1, 1 + lk) =~= fk);
            assert(b.subrange(start + 1 + lk, start + 1 + lk + lv) =~= e.subrange(
                1 + lk,
                1 + lk + lv,
            ));
            assert(e.subrange(1 + lk, 1 + lk + lv) =~= fv);
        },
        Cmd::Rm(k) => {
            let fk = field(k);
            let lk = fk.len() as int;
            assert(b.subrange(start + 1, start + 1 + lk) =~= e.subrange(1, 1 + lk));
            assert(e.subrange(1, 1 + lk) =~= fk);
        },
    }
}

/// Two fields that both start at `i` are the same text.
proof fn lemma_field_unique(b: Seq<u8>, i: int, s: Seq<char>, t: Seq<char>)
    requires
        0 <= i,
        fits(s),
        fits(t),
        i + field(s).len() <= b.len(),
        b.subrange(i, i + field(s).len()) == field(s),
        i + field(t).len() <= b.len(),
        b.subrange(i, i + field(t).len()) == field(t),
    ensures
        s == t,
        field(s) == field(t),
{
    lemma_field_at(b, i, s);
    lemma_field_at(b, i, t);
    assert(encode_utf8(s) == encode_utf8(t));
    assert(decode_utf8(encode_utf8(s)) == s);
    assert(decode_utf8(encode_utf8(t)) == t);
}

/// The bytes of a record determine it: two records read at the same
/// offset are the same record, and end at the same offset.
pub proof fn lemma_record_unique(b: Seq<u8>, start: int, e1: int, c1: Cmd, e2: int, c2: Cmd)
    requires
        encoded_at(b, start, e1, c1),
        encoded_at(b, start, e2, c2),
        cmd_fits(c1),
        cmd_fits(c2),
    ensures
        c1 == c2,
        e1 == e2,
{
    lemma_cmd_parts(b, start, e1, c1);
    lemma_cmd_parts(b, start, e2, c2);
    match c1 {
        Cmd::Put(k1, v1) => {
            if let Cmd::Put(k2, v2) = c2 {
                lemma_field_unique(b, start + 1, k1, k2);
                lemma_field_unique(b, start + 1 + field(k1).len(), v1, v2);
            }
        },
        Cmd::Rm(k1) => {
            if let Cmd::Rm(k2) = c2 {
                lemma_field_unique(b, start + 1, k1, k2);
            }
        },
    }
}

/// A record found in some bytes is still found there after more bytes are appended.
pub proof fn lemma_encoded_at_extend(b: Seq<u8>, x: Seq<u8>, start: int, end: int, c: Cmd)
    requires
        encoded_at(b, start, end, c),
    ensures
        encoded_at(b + x, start, end, c),
{
    assert((b + x).subrange(start, end) =~= b.subrange(start, end));
}

} // verus!
