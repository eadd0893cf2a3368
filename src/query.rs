//! Query identifiers and query descriptors, with their binary encoding.
//!
//! Each field is written in declared order: fixed-width integers as eight
//! little-endian bytes, and the host list as a count followed by each host
//! name's byte length and its UTF-8 bytes.

use vstd::prelude::*;
use vstd::utf8::{decode_utf8, encode_utf8, encode_utf8_decode_utf8, encode_utf8_valid_utf8, valid_utf8};

verus! {

/// Identity of one distributed query.
#[derive(Copy, Clone, Debug, PartialEq, Eq, Structural, PartialOrd, Ord, Hash)]
pub struct QueryId(pub u64);

impl From<u64> for QueryId {
    fn from(id: u64) -> (r: QueryId)
        ensures
            r.0 == id,
    {
        QueryId(id)
    }
}

impl vstd::std_specs::convert::FromSpecImpl<u64> for QueryId {
    open spec fn obeys_from_spec() -> bool {
        true
    }

    open spec fn from_spec(v: u64) -> QueryId {
        QueryId(v)
    }
}

impl QueryId {
    /// Appends the encoding of this identifier to `out`.
    pub fn encode(&self, out: &mut Vec<u8>)
        ensures
            final(out)@ == old(out)@ + le_bytes(self.0),
    {
        push_u64(out, self.0);
    }

    /// Reads an identifier from the start of `b`, with the number of bytes it
    /// takes; `None` where `b` is shorter than an encoded identifier.
    pub fn decode(b: &[u8]) -> (r: Option<(QueryId, usize)>)
        ensures
            match r {
                Some((q, n)) => parse_u64(b@, 0) == Some(q.0) && n == 8,
                None => parse_u64(b@, 0) is None,
            },
    {
        match read_u64(b, 0) {
            Some(v) => Some((QueryId(v), 8)),
            None => None,
        }
    }
}

/// Resource and placement descriptor of a query.
#[derive(Clone, Debug)]
pub struct QueryParams {
    pub id: QueryId,
    pub threads: usize,
    pub processes: usize,
    pub hostlist: Vec<String>,
}

/// The characters of each host name, in order.
pub open spec fn hosts_view(hs: Seq<String>) -> Seq<Seq<char>> {
    hs.map_values(|s: String| s@)
}

impl QueryParams {
    /// The descriptor's fields as plain values.
    pub open spec fn model(&self) -> ParamsModel {
        ParamsModel {
            id: self.id.0,
            threads: self.threads,
            processes: self.processes,
            hostlist: hosts_view(self.hostlist@),
        }
    }

    /// Appends the encoding of this descriptor to `out`.
    pub fn encode(&self, out: &mut Vec<u8>)
        ensures
            final(out)@ == old(out)@ + params_bytes(
                self.id.0,
                self.threads as u64,
                self.processes as u64,
                hosts_view(self.hostlist@),
            ),
    {
        let ghost hs = hosts_view(self.hostlist@);
        push_u64(out, self.id.0);
        push_u64(out, self.threads as u64);
        push_u64(out, self.processes as u64);
        push_u64(out, self.hostlist.len() as u64);
        let ghost head = out@;
        let mut i: usize = 0;
        while i < self.hostlist.len()
            invariant
                i <= self.hostlist.len(),
                hs == hosts_view(self.hostlist@),
                out@ == head + hosts_bytes(hs.take(i as int)),
            decreases self.hostlist.len() - i,
        {
            let h: &str = self.hostlist[i].as_str();
            let bytes: &[u8] = h.as_bytes();
            push_u64(out, bytes.len() as u64);
            append_bytes(out, bytes);
            assert(hs.take(i + 1).drop_last() =~= hs.take(i as int));
            assert(out@ =~= head + hosts_bytes(hs.take(i + 1)));
            i = i + 1;
        }
        assert(hs.take(i as int) =~= hs);
        assert(out@ =~= old(out)@ + params_bytes(
            self.id.0,
            self.threads as u64,
            self.processes as u64,
            hs,
        ));
    }

    /// Reads a descriptor from the start of `b`, with the number of bytes it
    /// takes; `None` where `b` holds no well-formed descriptor there.
    pub fn decode(b: &[u8]) -> (r: Option<(QueryParams, usize)>)
        ensures
            match r {
                Some((p, n)) => parse_params(b@) == Some((p.model(), n as int)),
                None => parse_params(b@) is None,
            },
    {
        let id = match read_u64(b, 0) {
            Some(v) => v,
            None => return None,
        };
        let threads = match read_u64(b, 8) {
            Some(v) => v,
            None => return None,
        };
        let processes = match read_u64(b, 16) {
            Some(v) => v,
            None => return None,
        };
        let count = match read_u64(b, 24) {
            Some(v) => v,
            None => return None,
        };
        if threads > usize::MAX as u64 || processes > usize::MAX as u64 {
            return None;
        }
        let mut hostlist: Vec<String> = Vec::new();
        let mut pos: usize = 32;
        let mut i: u64 = 0;
        while i < count
            invariant
                i <= count,
                parse_u64(b@, 0) == Some(id),
                parse_u64(b@, 8) == Some(threads),
                parse_u64(b@, 16) == Some(processes),
                parse_u64(b@, 24) == Some(count),
                threads <= usize::MAX,
                processes <= usize::MAX,
                parse_hosts(b@, 32, i as nat) == Some((hosts_view(hostlist@), pos as int)),
            decreases count - i,
        {
            match read_host(b, pos) {
                Some((h, next)) => {
                    assert(hosts_view(hostlist@.push(h)) =~= hosts_view(hostlist@).push(h@));
                    hostlist.push(h);
                    pos = next;
                },
                None => {
                    proof {
                        lemma_parse_hosts_stays_none(b@, 32, (i + 1) as nat, count as nat);
                    }
                    return None;
                },
            }
            i = i + 1;
        }
        let p = QueryParams {
            id: QueryId(id),
            threads: threads as usize,
            processes: processes as usize,
            hostlist,
        };
        Some((p, pos))
    }
}

/// Once the host names cannot be read, reading more of them fails too.
proof fn lemma_parse_hosts_stays_none(b: Seq<u8>, pos: int, n: nat, m: nat)
    requires
        n <= m,
        parse_hosts(b, pos, n) is None,
    ensures
        parse_hosts(b, pos, m) is None,
    decreases m - n,
{
    if n < m {
        lemma_parse_hosts_stays_none(b, pos, n + 1, m);
    }
}

/// Appends the bytes of `b` to `out`.
fn append_bytes(out: &mut Vec<u8>, b: &[u8])
    ensures
        final(out)@ == old(out)@ + b@,
{
    let ghost head = out@;
    let mut j: usize = 0;
    while j < b.len()
        invariant
            j <= b.len(),
            out@ == head + b@.take(j as int),
        decreases b.len() - j,
    {
        out.push(b[j]);
        assert(b@.take(j + 1) =~= b@.take(j as int).push(b@[j as int]));
        j = j + 1;
    }
    assert(b@.take(j as int) =~= b@);
}

/// Relies on `String::from_utf8`: it accepts exactly the byte vectors that
/// are valid UTF-8, and the string it returns is made of those bytes.
#[verifier::external_body]
fn string_from_utf8(v: Vec<u8>) -> (r: Option<String>)
    ensures
        r is Some <==> valid_utf8(v@),
        r matches Some(s) ==> encode_utf8(s@) == v@,
{
    String::from_utf8(v).ok()
}

/// Reads one host name at `pos`, with the position after it.
fn read_host(b: &[u8], pos: usize) -> (r: Option<(String, usize)>)
    ensures
        match r {
            Some((s, q)) => parse_host(b@, pos as int) == Some((s@, q as int)),
            None => parse_host(b@, pos as int) is None,
        },
{
    let n = match read_u64(b, pos) {
        Some(n) => n,
        None => return None,
    };
    assert(pos + 8 <= b@.len());
    assert(b@.len() == b.len());
    let start: usize = pos + 8;
    if n > (b.len() - start) as u64 {
        return None;
    }
    let end: usize = start + n as usize;
    let mut v: Vec<u8> = Vec::new();
    let mut j: usize = start;
    while j < end
        invariant
            start <= j <= end <= b.len(),
            v@ == b@.subrange(start as int, j as int),
        decreases end - j,
    {
        v.push(b[j]);
        assert(b@.subrange(start as int, j + 1) =~= b@.subrange(start as int, j as int).push(
            b@[j as int],
        ));
        j = j + 1;
    }
    match string_from_utf8(v) {
        Some(s) => {
            proof {
                encode_utf8_decode_utf8(s@);
            }
            Some((s, end))
        },
        None => None,
    }
}

/// The eight little-endian bytes of `v`.
pub open spec fn le_bytes(v: u64) -> Seq<u8> {
    seq![
        (v & 0xff) as u8,
        ((v >> 8u64) & 0xff) as u8,
        ((v >> 16u64) & 0xff) as u8,
        ((v >> 24u64) & 0xff) as u8,
        ((v >> 32u64) & 0xff) as u8,
        ((v >> 40u64) & 0xff) as u8,
        ((v >> 48u64) & 0xff) as u8,
        ((v >> 56u64) & 0xff) as u8,
    ]
}

/// The integer whose little-endian bytes are `b[0..8]`.
pub open spec fn le_value(b: Seq<u8>) -> u64
    recommends
        b.len() >= 8,
{
    (b[0] as u64) | ((b[1] as u64) << 8u64) | ((b[2] as u64) << 16u64) | ((b[3] as u64) << 24u64)
        | ((b[4] as u64) << 32u64) | ((b[5] as u64) << 40u64) | ((b[6] as u64) << 48u64)
        | ((b[7] as u64) << 56u64)
}

/// The integer stored at `pos`, if eight bytes are there.
pub open spec fn parse_u64(b: Seq<u8>, pos: int) -> Option<u64> {
    if 0 <= pos && pos + 8 <= b.len() {
        Some(le_value(b.subrange(pos, pos + 8)))
    } else {
        None
    }
}

/// Encoding of one host name: its byte length, then its UTF-8 bytes.
pub open spec fn host_bytes(h: Seq<char>) -> Seq<u8> {
    le_bytes(encode_utf8(h).len() as u64) + encode_utf8(h)
}

/// Encoding of the host names one after the other, without the count.
pub open spec fn hosts_bytes(hs: Seq<Seq<char>>) -> Seq<u8>
    decreases hs.len(),
{
    if hs.len() == 0 {
        Seq::empty()
    } else {
        hosts_bytes(hs.drop_last()) + host_bytes(hs.last())
    }
}

/// Complete encoding of a query descriptor with the given fields.
pub open spec fn params_bytes(id: u64, threads: u64, processes: u64, hs: Seq<Seq<char>>) -> Seq<u8> {
    le_bytes(id) + le_bytes(threads) + le_bytes(processes) + le_bytes(hs.len() as u64) + hosts_bytes(hs)
}

/// One host name read at `pos`, with the position after it.
pub open spec fn parse_host(b: Seq<u8>, pos: int) -> Option<(Seq<char>, int)> {
    match parse_u64(b, pos) {
        Some(n) => {
            let start = pos + 8;
            let end = start + n;
            if end <= b.len() && valid_utf8(b.subrange(start, end)) {
                Some((decode_utf8(b.subrange(start, end)), end))
            } else {
                None
            }
        },
        None => None,
    }
}

/// `n` host names read from `pos` on, with the position after the last.
pub open spec fn parse_hosts(b: Seq<u8>, pos: int, n: nat) -> Option<(Seq<Seq<char>>, int)>
    decreases n,
{
    if n == 0 {
        Some((Seq::empty(), pos))
    } else {
        match parse_hosts(b, pos, (n - 1) as nat) {
            Some((hs, p)) => match parse_host(b, p) {
                Some((h, q)) => Some((hs.push(h), q)),
                None => None,
            },
            None => None,
        }
    }
}

/// The fields of a query descriptor as plain values.
pub struct ParamsModel {
    pub id: u64,
    pub threads: usize,
    pub processes: usize,
    pub hostlist: Seq<Seq<char>>,
}

/// A query descriptor read from the start of `b`, with the number of bytes
/// it takes; `None` where `b` holds no well-formed descriptor there.
pub open spec fn parse_params(b: Seq<u8>) -> Option<(ParamsModel, int)> {
    match (parse_u64(b, 0), parse_u64(b, 8), parse_u64(b, 16), parse_u64(b, 24)) {
        (Some(id), Some(threads), Some(processes), Some(count)) => {
            if threads <= usize::MAX && processes <= usize::MAX {
                match parse_hosts(b, 32, count as nat) {
                    Some((hs, end)) => Some((
                        ParamsModel {
                            id,
                            threads: threads as usize,
                            processes: processes as usize,
                            hostlist: hs,
                        },
                        end,
                    )),
                    None => None,
                }
            } else {
                None
            }
        },
        _ => None,
    }
}

/// Appends the eight little-endian bytes of `v`.
fn push_u64(out: &mut Vec<u8>, v: u64)
    ensures
        final(out)@ == old(out)@ + le_bytes(v),
{
    out.push((v & 0xff) as u8);
    out.push(((v >> 8u64) & 0xff) as u8);
    out.push(((v >> 16u64) & 0xff) as u8);
    out.push(((v >> 24u64) & 0xff) as u8);
    out.push(((v >> 32u64) & 0xff) as u8);
    out.push(((v >> 40u64) & 0xff) as u8);
    out.push(((v >> 48u64) & 0xff) as u8);
    out.push(((v >> 56u64) & 0xff) as u8);
    assert(final(out)@ =~= old(out)@ + le_bytes(v));
}

/// Reads the integer stored at `pos`.
fn read_u64(b: &[u8], pos: usize) -> (r: Option<u64>)
    ensures
        r == parse_u64(b@, pos as int),
{
    if pos > b.len() || b.len() - pos < 8 {
        return None;
    }
    let v = (b[pos] as u64) | ((b[pos + 1] as u64) << 8u64) | ((b[pos + 2] as u64) << 16u64)
        | ((b[pos + 3] as u64) << 24u64) | ((b[pos + 4] as u64) << 32u64) | ((b[pos + 5] as u64)
        << 40u64) | ((b[pos + 6] as u64) << 48u64) | ((b[pos + 7] as u64) << 56u64);
    assert(b@.subrange(pos as int, pos + 8)[3] == b@[pos + 3]);
    Some(v)
}

/// Reading back the bytes of an integer gives the integer.
pub proof fn lemma_le_round_trip(v: u64)
    ensures
        le_value(le_bytes(v)) == v,
{
    let b = le_bytes(v);
    let (b0, b1, b2, b3, b4, b5, b6, b7) = (b[0], b[1], b[2], b[3], b[4], b[5], b[6], b[7]);
    assert(b0 == (v & 0xff) as u8 && b1 == ((v >> 8u64) & 0xff) as u8 && b2 == ((v >> 16u64)
        & 0xff) as u8 && b3 == ((v >> 24u64) & 0xff) as u8 && b4 == ((v >> 32u64) & 0xff) as u8
        && b5 == ((v >> 40u64) & 0xff) as u8 && b6 == ((v >> 48u64) & 0xff) as u8 && b7 == ((v
        >> 56u64) & 0xff) as u8 ==> (b0 as u64) | ((b1 as u64) << 8u64) | ((b2 as u64) << 16u64)
        | ((b3 as u64) << 24u64) | ((b4 as u64) << 32u64) | ((b5 as u64) << 40u64) | ((b6 as u64)
        << 48u64) | ((b7 as u64) << 56u64) == v) by (bit_vector);
}

/// An integer written at position `pre.len()` is read back there.
proof fn lemma_parse_u64_at(pre: Seq<u8>, v: u64, rest: Seq<u8>)
    ensures
        parse_u64(pre + le_bytes(v) + rest, pre.len() as int) == Some(v),
{
    let b = pre + le_bytes(v) + rest;
    assert(b.subrange(pre.len() as int, pre.len() + 8int) =~= le_bytes(v));
    lemma_le_round_trip(v);
}

/// A host name written at position `pre.len()` is read back there.
proof fn lemma_parse_host_at(pre: Seq<u8>, h: Seq<char>, rest: Seq<u8>)
    requires
        encode_utf8(h).len() <= u64::MAX,
    ensures
        parse_host(pre + host_bytes(h) + rest, pre.len() as int) == Some(
            (h, pre.len() + host_bytes(h).len() as int),
        ),
{
    let e = encode_utf8(h);
    let b = pre + host_bytes(h) + rest;
    assert(b =~= pre + le_bytes(e.len() as u64) + (e + rest));
    lemma_parse_u64_at(pre, e.len() as u64, e + rest);
    let start: int = pre.len() + 8int;
    assert(b.subrange(start, start + e.len() as int) =~= e);
    encode_utf8_valid_utf8(h);
    encode_utf8_decode_utf8(h);
}

/// Host names written one after the other from `pre.len()` on are read
/// back there, and reading stops right after the last of them.
proof fn lemma_parse_hosts_at(pre: Seq<u8>, hs: Seq<Seq<char>>, rest: Seq<u8>)
    requires
        forall|i: int| 0 <= i < hs.len() ==> encode_utf8(#[trigger] hs[i]).len() <= u64::MAX,
    ensures
        parse_hosts(pre + hosts_bytes(hs) + rest, pre.len() as int, hs.len()) == Some(
            (hs, pre.len() + hosts_bytes(hs).len() as int),
        ),
    decreases hs.len(),
{
    if hs.len() > 0 {
        let init = hs.drop_last();
        let last = hs.last();
        let b = pre + hosts_bytes(hs) + rest;
        assert(b =~= pre + hosts_bytes(init) + (host_bytes(last) + rest));
        assert forall|i: int| 0 <= i < init.len() implies encode_utf8(
            #[trigger] init[i],
        ).len() <= u64::MAX by {
            assert(init[i] == hs[i]);
        }
        lemma_parse_hosts_at(pre, init, host_bytes(last) + rest);
        assert(b =~= (pre + hosts_bytes(init)) + host_bytes(last) + rest);
        assert(encode_utf8(hs[hs.len() - 1]).len() <= u64::MAX);
        lemma_parse_host_at(pre + hosts_bytes(init), last, rest);
        assert(init.push(last) =~= hs);
    }
}

/// Decoding the encoding of an identifier, whatever bytes follow it, gives
/// back an equal identifier.
pub proof fn lemma_query_id_round_trip(q: QueryId, rest: Seq<u8>)
    ensures
        parse_u64(le_bytes(q.0) + rest, 0) matches Some(v) && QueryId(v) == q,
{
    lemma_parse_u64_at(Seq::empty(), q.0, rest);
    assert(Seq::<u8>::empty() + le_bytes(q.0) =~= le_bytes(q.0));
}

/// Decoding the encoding of a descriptor, whatever bytes follow it, gives
/// back the same fields and stops right after the encoding.
pub proof fn lemma_query_params_round_trip(p: ParamsModel, rest: Seq<u8>)
    requires
        p.hostlist.len() <= u64::MAX,
        forall|i: int|
            0 <= i < p.hostlist.len() ==> encode_utf8(#[trigger] p.hostlist[i]).len() <= u64::MAX,
    ensures
        ({
            let e = params_bytes(p.id, p.threads as u64, p.processes as u64, p.hostlist);
            parse_params(e + rest) == Some((p, e.len() as int))
        }),
{
    let hs = p.hostlist;
    let e = params_bytes(p.id, p.threads as u64, p.processes as u64, hs);
    let b = e + rest;
    let tail = le_bytes(p.threads as u64) + le_bytes(p.processes as u64) + le_bytes(hs.len() as u64)
        + hosts_bytes(hs) + rest;
    assert(b =~= Seq::<u8>::empty() + le_bytes(p.id) + tail);
    lemma_parse_u64_at(Seq::empty(), p.id, tail);
    let pre1 = le_bytes(p.id);
    let tail1 = le_bytes(p.processes as u64) + le_bytes(hs.len() as u64) + hosts_bytes(hs) + rest;
    assert(b =~= pre1 + le_bytes(p.threads as u64) + tail1);
    lemma_parse_u64_at(pre1, p.threads as u64, tail1);
    let pre2 = pre1 + le_bytes(p.threads as u64);
    let tail2 = le_bytes(hs.len() as u64) + hosts_bytes(hs) + rest;
    assert(b =~= pre2 + le_bytes(p.processes as u64) + tail2);
    lemma_parse_u64_at(pre2, p.processes as u64, tail2);
    let pre3 = pre2 + le_bytes(p.processes as u64);
    let tail3 = hosts_bytes(hs) + rest;
    assert(b =~= pre3 + le_bytes(hs.len() as u64) + tail3);
    lemma_parse_u64_at(pre3, hs.len() as u64, tail3);
    let pre4 = pre3 + le_bytes(hs.len() as u64);
    assert(b =~= pre4 + hosts_bytes(hs) + rest);
    lemma_parse_hosts_at(pre4, hs, rest);
    assert(pre4.len() == 32);
    assert((hs.len() as u64) as nat == hs.len());
    assert(e.len() == pre4.len() + hosts_bytes(hs).len());
}

} // verus!
