use vstd::prelude::*;
use crate::handle::Handle;
use crate::kind::{NodeKind, kind_of_id};
use crate::node::Node;
use vstd::utf8::{decode_utf8, encode_utf8, valid_utf8};

verus! {

/// Why stored bytes could not be read back as a node record.
#[derive(Clone, Copy, Debug, PartialEq, Eq, Structural)]
pub enum RecordError {
    /// The bytes end before the record does, or go on after it.
    Truncated,
    /// The stored variant id names no variant.
    UnknownVariant(u8),
    /// A flag byte is neither 0 nor 1.
    BadFlag,
    /// The stored name is not UTF-8.
    BadName,
}

/// Little-endian bytes of `x`.
pub open spec fn u32_bytes(x: u32) -> Seq<u8> {
    seq![(x & 0xff) as u8, ((x >> 8u32) & 0xff) as u8, ((x >> 16u32) & 0xff) as u8, ((x >> 24u32) & 0xff) as u8]
}

pub open spec fn handle_bytes(h: Handle) -> Seq<u8> {
    u32_bytes(h.index) + u32_bytes(h.generation)
}

pub open spec fn handles_bytes(s: Seq<Handle>) -> Seq<u8>
    decreases s.len(),
{
    if s.len() == 0 {
        Seq::empty()
    } else {
        handles_bytes(s.drop_last()) + handle_bytes(s.last())
    }
}

pub open spec fn flag_byte(b: bool) -> u8 {
    if b { 1 } else { 0 }
}

pub open spec fn resource_bytes(r: Option<u64>) -> Seq<u8> {
    match r {
        Some(v) => seq![1u8] + u32_bytes((v % 0x1_0000_0000) as u32) + u32_bytes((v / 0x1_0000_0000) as u32),
        None => seq![0u8] + u32_bytes(0) + u32_bytes(0),
    }
}

pub open spec fn u64_bytes(v: u64) -> Seq<u8> {
    u32_bytes((v % 0x1_0000_0000) as u32) + u32_bytes((v / 0x1_0000_0000) as u32)
}

/// The node's name as UTF-8, after its length in bytes.
pub open spec fn name_bytes(name: Seq<char>) -> Seq<u8> {
    u64_bytes(encode_utf8(name).len() as u64) + encode_utf8(name)
}

/// The stored form of a node: its variant id first, so that a reader can
/// build the variant before anything else, then its visibility, parent,
/// physics body, source node, template, children and name in order.
pub open spec fn record_bytes(n: Node) -> Seq<u8> {
    seq![n.kind.spec_id(), flag_byte(n.visibility)] + handle_bytes(n.parent) + handle_bytes(n.body)
        + handle_bytes(n.original) + resource_bytes(n.resource) + u32_bytes(n.children@.len() as u32)
        + handles_bytes(n.children@) + name_bytes(n.name@)
}

/// The node fits the record's counts: up to `u32::MAX` children and a name of
/// up to `u64::MAX` bytes.
pub open spec fn storable(n: Node) -> bool {
    n.children@.len() <= u32::MAX && encode_utf8(n.name@).len() <= u64::MAX
}

/// The two nodes agree on every field the record stores.
pub open spec fn same_record(a: Node, b: Node) -> bool {
    &&& a.kind == b.kind
    &&& a.visibility == b.visibility
    &&& a.parent == b.parent
    &&& a.body == b.body
    &&& a.original == b.original
    &&& a.resource == b.resource
    &&& a.children@ == b.children@
    &&& a.name@ == b.name@
}

/// Relies on std::str::from_utf8, which accepts exactly the valid UTF-8 byte
/// sequences and then reads the characters they encode.
#[verifier::external_body]
fn string_from_utf8(b: &[u8]) -> (r: Option<String>)
    ensures
        r is Some <==> valid_utf8(b@),
        r is Some ==> r->Some_0@ == decode_utf8(b@),
{
    std::str::from_utf8(b).ok().map(|s| s.to_string())
}

proof fn lemma_u32_bytes_injective(x: u32, y: u32)
    requires
        u32_bytes(x) == u32_bytes(y),
    ensures
        x == y,
{
    assert(u32_bytes(x)[0] == u32_bytes(y)[0]);
    assert(u32_bytes(x)[1] == u32_bytes(y)[1]);
    assert(u32_bytes(x)[2] == u32_bytes(y)[2]);
    assert(u32_bytes(x)[3] == u32_bytes(y)[3]);
    assert(((x & 0xff) as u8 == (y & 0xff) as u8 && ((x >> 8u32) & 0xff) as u8 == ((y >> 8u32) & 0xff) as u8
        && ((x >> 16u32) & 0xff) as u8 == ((y >> 16u32) & 0xff) as u8 && ((x >> 24u32) & 0xff) as u8 == ((y
        >> 24u32) & 0xff) as u8) ==> x == y) by (bit_vector);
}

fn push_u32(out: &mut Vec<u8>, x: u32)
    ensures
        final(out)@ == old(out)@ + u32_bytes(x),
{
    out.push((x & 0xff) as u8);
    out.push(((x >> 8u32) & 0xff) as u8);
    out.push(((x >> 16u32) & 0xff) as u8);
    out.push(((x >> 24u32) & 0xff) as u8);
    assert(final(out)@ =~= old(out)@ + u32_bytes(x));
}

fn read_u32(b: &[u8], at: usize) -> (r: u32)
    requires
        at + 4 <= b@.len(),
    ensures
        u32_bytes(r) == b@.subrange(at as int, at + 4),
{
    let b0 = b[at];
    let b1 = b[at + 1];
    let b2 = b[at + 2];
    let b3 = b[at + 3];
    let r = (b0 as u32) | ((b1 as u32) << 8u32) | ((b2 as u32) << 16u32) | ((b3 as u32) << 24u32);
    assert((r & 0xff) as u8 == b0 && ((r >> 8u32) & 0xff) as u8 == b1 && ((r >> 16u32) & 0xff) as u8 == b2
        && ((r >> 24u32) & 0xff) as u8 == b3) by (bit_vector)
        requires
            r == (b0 as u32) | ((b1 as u32) << 8u32) | ((b2 as u32) << 16u32) | ((b3 as u32) << 24u32),
    ;
    assert(u32_bytes(r) =~= b@.subrange(at as int, at + 4));
    r
}

fn push_handle(out: &mut Vec<u8>, h: Handle)
    ensures
        final(out)@ == old(out)@ + handle_bytes(h),
{
    push_u32(out, h.index);
    push_u32(out, h.generation);
    assert(final(out)@ =~= old(out)@ + handle_bytes(h));
}

fn read_handle(b: &[u8], at: usize) -> (r: Handle)
    requires
        at + 8 <= b@.len(),
    ensures
        handle_bytes(r) == b@.subrange(at as int, at + 8),
{
    let len = b.len();
    assert(at + 8 <= len);
    let index = read_u32(b, at);
    let generation = read_u32(b, at + 4);
    let r = Handle { index, generation };
    assert(handle_bytes(r) =~= b@.subrange(at as int, at + 8));
    r
}


/// Size of a record before its children.
pub const HEADER_LEN: usize = 39;

proof fn lemma_handles_bytes_len(s: Seq<Handle>)
    ensures
        handles_bytes(s).len() == 8 * s.len(),
    decreases s.len(),
{
    if s.len() > 0 {
        lemma_handles_bytes_len(s.drop_last());
    }
}

proof fn lemma_handles_bytes_injective(s: Seq<Handle>, t: Seq<Handle>)
    requires
        s.len() == t.len(),
        handles_bytes(s) == handles_bytes(t),
    ensures
        s == t,
    decreases s.len(),
{
    if s.len() > 0 {
        lemma_handles_bytes_len(s.drop_last());
        lemma_handles_bytes_len(t.drop_last());
        let a = handles_bytes(s);
        let k = 8 * (s.len() - 1);
        assert(a.subrange(0, k) =~= handles_bytes(s.drop_last()));
        assert(a.subrange(0, k) =~= handles_bytes(t.drop_last()));
        assert(a.subrange(k, k + 4) =~= u32_bytes(s.last().index));
        assert(a.subrange(k, k + 4) =~= u32_bytes(t.last().index));
        assert(a.subrange(k + 4, k + 8) =~= u32_bytes(s.last().generation));
        assert(a.subrange(k + 4, k + 8) =~= u32_bytes(t.last().generation));
        lemma_u32_bytes_injective(s.last().index, t.last().index);
        lemma_u32_bytes_injective(s.last().generation, t.last().generation);
        lemma_handles_bytes_injective(s.drop_last(), t.drop_last());
        assert(s =~= s.drop_last().push(s.last()));
        assert(t =~= t.drop_last().push(t.last()));
    }
}

/// Where each field sits in a record.
proof fn lemma_record_layout(n: Node)
    requires
        storable(n),
    ensures
        record_bytes(n).len() == HEADER_LEN + 8 * (n.children@.len() as int) + 8 + encode_utf8(n.name@).len(),
        record_bytes(n)[0] == n.kind.spec_id(),
        record_bytes(n)[1] == flag_byte(n.visibility),
        record_bytes(n).subrange(2, 6) == u32_bytes(n.parent.index),
        record_bytes(n).subrange(6, 10) == u32_bytes(n.parent.generation),
        record_bytes(n).subrange(10, 14) == u32_bytes(n.body.index),
        record_bytes(n).subrange(14, 18) == u32_bytes(n.body.generation),
        record_bytes(n).subrange(18, 22) == u32_bytes(n.original.index),
        record_bytes(n).subrange(22, 26) == u32_bytes(n.original.generation),
        record_bytes(n).subrange(26, 35) == resource_bytes(n.resource),
        record_bytes(n).subrange(35, 39) == u32_bytes(n.children@.len() as u32),
        record_bytes(n).subrange(39, 39 + 8 * (n.children@.len() as int)) == handles_bytes(n.children@),
        record_bytes(n).subrange(39 + 8 * (n.children@.len() as int), 43 + 8 * (n.children@.len() as int)) == u32_bytes(
            ((encode_utf8(n.name@).len() as u64) % 0x1_0000_0000) as u32,
        ),
        record_bytes(n).subrange(43 + 8 * (n.children@.len() as int), 47 + 8 * (n.children@.len() as int)) == u32_bytes(
            ((encode_utf8(n.name@).len() as u64) / 0x1_0000_0000) as u32,
        ),
        record_bytes(n).subrange(47 + 8 * (n.children@.len() as int), record_bytes(n).len() as int) == encode_utf8(n.name@),
{
    lemma_handles_bytes_len(n.children@);
    let r = record_bytes(n);
    let k = 8 * (n.children@.len() as int);
    let nl = encode_utf8(n.name@).len() as u64;
    assert(r.subrange(2, 6) =~= u32_bytes(n.parent.index));
    assert(r.subrange(6, 10) =~= u32_bytes(n.parent.generation));
    assert(r.subrange(10, 14) =~= u32_bytes(n.body.index));
    assert(r.subrange(14, 18) =~= u32_bytes(n.body.generation));
    assert(r.subrange(18, 22) =~= u32_bytes(n.original.index));
    assert(r.subrange(22, 26) =~= u32_bytes(n.original.generation));
    assert(r.subrange(26, 35) =~= resource_bytes(n.resource));
    assert(r.subrange(35, 39) =~= u32_bytes(n.children@.len() as u32));
    assert(r.subrange(39, 39 + k) =~= handles_bytes(n.children@));
    assert(r.subrange(39 + k, 43 + k) =~= u32_bytes((nl % 0x1_0000_0000) as u32));
    assert(r.subrange(43 + k, 47 + k) =~= u32_bytes((nl / 0x1_0000_0000) as u32));
    assert(r.subrange(47 + k, r.len() as int) =~= encode_utf8(n.name@));
}

proof fn lemma_resource_injective(a: Option<u64>, b: Option<u64>)
    requires
        resource_bytes(a) == resource_bytes(b),
    ensures
        a == b,
{
    let ra = resource_bytes(a);
    assert(ra[0] == resource_bytes(b)[0]);
    if let Some(va) = a {
        let vb = b->Some_0;
        assert(ra.subrange(1, 5) =~= u32_bytes((va % 0x1_0000_0000) as u32));
        assert(ra.subrange(1, 5) =~= u32_bytes((vb % 0x1_0000_0000) as u32));
        assert(ra.subrange(5, 9) =~= u32_bytes((va / 0x1_0000_0000) as u32));
        assert(ra.subrange(5, 9) =~= u32_bytes((vb / 0x1_0000_0000) as u32));
        lemma_u32_bytes_injective((va % 0x1_0000_0000) as u32, (vb % 0x1_0000_0000) as u32);
        lemma_u32_bytes_injective((va / 0x1_0000_0000) as u32, (vb / 0x1_0000_0000) as u32);
    }
}

/// Two nodes with the same record agree on every field the record stores:
/// reading a record back gives the fields that were written.
pub proof fn lemma_record_round_trip(a: Node, b: Node)
    requires
        storable(a),
        storable(b),
        record_bytes(a) == record_bytes(b),
    ensures
        same_record(a, b),
{
    lemma_record_layout(a);
    lemma_record_layout(b);
    crate::kind::lemma_kind_id_round_trip(a.kind, b.kind.spec_id());
    crate::kind::lemma_kind_id_round_trip(b.kind, a.kind.spec_id());
    lemma_u32_bytes_injective(a.parent.index, b.parent.index);
    lemma_u32_bytes_injective(a.parent.generation, b.parent.generation);
    lemma_u32_bytes_injective(a.body.index, b.body.index);
    lemma_u32_bytes_injective(a.body.generation, b.body.generation);
    lemma_u32_bytes_injective(a.original.index, b.original.index);
    lemma_u32_bytes_injective(a.original.generation, b.original.generation);
    lemma_resource_injective(a.resource, b.resource);
    lemma_u32_bytes_injective(a.children@.len() as u32, b.children@.len() as u32);
    lemma_handles_bytes_injective(a.children@, b.children@);
    let k: int = 8 * (a.children@.len() as int);
    let ra = record_bytes(a);
    assert(ra.subrange(47 + k, ra.len() as int) == encode_utf8(a.name@));
    assert(ra.subrange(47 + k, ra.len() as int) == encode_utf8(b.name@));
    vstd::utf8::encode_utf8_decode_utf8(a.name@);
    vstd::utf8::encode_utf8_decode_utf8(b.name@);
}

/// The node's record.
#[verifier::rlimit(40)]
pub fn encode_record(n: &Node) -> (r: Vec<u8>)
    requires
        n.children@.len() <= u32::MAX,
    ensures
        r@ == record_bytes(*n),
        storable(*n),
{
    let mut out: Vec<u8> = Vec::new();
    out.push(n.kind.id());
    out.push(if n.visibility { 1u8 } else { 0u8 });
    push_handle(&mut out, n.parent);
    push_handle(&mut out, n.body);
    push_handle(&mut out, n.original);
    match n.resource {
        Some(v) => {
            out.push(1u8);
            push_u32(&mut out, (v % 0x1_0000_0000) as u32);
            push_u32(&mut out, (v / 0x1_0000_0000) as u32);
        },
        None => {
            out.push(0u8);
            push_u32(&mut out, 0);
            push_u32(&mut out, 0);
        },
    }
    push_u32(&mut out, n.children.len() as u32);
    let ghost head = out@;
    assert(head =~= seq![n.kind.spec_id(), flag_byte(n.visibility)] + handle_bytes(n.parent) + handle_bytes(n.body)
        + handle_bytes(n.original) + resource_bytes(n.resource) + u32_bytes(n.children@.len() as u32));
    let len = n.children.len();
    let mut i: usize = 0;
    while i < len
        invariant
            len == n.children@.len(),
            i <= len,
            out@ == head + handles_bytes(n.children@.subrange(0, i as int)),
        decreases len - i,
    {
        push_handle(&mut out, n.children[i]);
        proof {
            let s = n.children@.subrange(0, i + 1);
            assert(s.drop_last() =~= n.children@.subrange(0, i as int));
            assert(out@ =~= head + handles_bytes(s));
        }
        i += 1;
    }
    assert(n.children@.subrange(0, len as int) =~= n.children@);
    let ghost body_bytes = out@;
    let bytes = n.name.as_str().as_bytes();
    let nb = bytes.len();
    push_u32(&mut out, ((nb as u64) % 0x1_0000_0000) as u32);
    push_u32(&mut out, ((nb as u64) / 0x1_0000_0000) as u32);
    let ghost mid = out@;
    let mut j: usize = 0;
    while j < nb
        invariant
            nb == bytes@.len(),
            j <= nb,
            out@ == mid + bytes@.subrange(0, j as int),
        decreases nb - j,
    {
        out.push(bytes[j]);
        proof {
            assert(out@ =~= mid + bytes@.subrange(0, j + 1));
        }
        j += 1;
    }
    assert(bytes@.subrange(0, nb as int) =~= bytes@);
    assert(bytes@ == encode_utf8(n.name@));
    assert(mid =~= body_bytes + u64_bytes(nb as u64));
    assert(out@ =~= body_bytes + name_bytes(n.name@));
    out
}

/// Reads a record back into a fresh unnamed node. It succeeds exactly on the
/// records of nodes, and then gives the fields that were stored.
#[verifier::rlimit(60)]
pub fn decode_record(b: &[u8]) -> (r: Result<Node, RecordError>)
    ensures
        r is Ok ==> b@ == record_bytes(r->Ok_0),
        r is Ok ==> r->Ok_0.global_visibility && storable(r->Ok_0),
        forall|n: Node|
            #![trigger record_bytes(n)]
            storable(n) && b@ == record_bytes(n) ==> r is Ok && same_record(r->Ok_0, n),
        b@.len() < HEADER_LEN ==> r == Err::<Node, RecordError>(RecordError::Truncated),
        b@.len() >= HEADER_LEN && kind_of_id(b@[0]) is None ==> r == Err::<Node, RecordError>(
            RecordError::UnknownVariant(b@[0]),
        ),
{
    let len = b.len();
    if len < HEADER_LEN {
        return Err(RecordError::Truncated);
    }
    let id = b[0];
    let kind = match NodeKind::new(id) {
        Ok(k) => k,
        Err(_) => {
            return Err(RecordError::UnknownVariant(id));
        },
    };
    let vis = b[1];
    if vis > 1 {
        proof {
            assert forall|n: Node| #![trigger record_bytes(n)]
                storable(n) && b@ == record_bytes(n) implies false by {
                lemma_record_layout(n);
            }
        }
        return Err(RecordError::BadFlag);
    }
    let parent = read_handle(b, 2);
    let body = read_handle(b, 10);
    let original = read_handle(b, 18);
    let tag = b[26];
    let lo = read_u32(b, 27);
    let hi = read_u32(b, 31);
    let resource = if tag == 1 {
        Some(lo as u64 + (hi as u64) * 0x1_0000_0000)
    } else if tag == 0 && lo == 0 && hi == 0 {
        None
    } else {
        proof {
            assert forall|n: Node| #![trigger record_bytes(n)]
                storable(n) && b@ == record_bytes(n) implies false by {
                lemma_record_layout(n);
                let rs = resource_bytes(n.resource);
                assert(b@[26] == b@.subrange(26, 35)[0]);
                assert(b@.subrange(27, 31) =~= b@.subrange(26, 35).subrange(1, 5));
                assert(b@.subrange(31, 35) =~= b@.subrange(26, 35).subrange(5, 9));
                assert(rs.subrange(1, 5) =~= u32_bytes(0) || n.resource is Some);
                assert(rs.subrange(5, 9) =~= u32_bytes(0) || n.resource is Some);
                if n.resource is None {
                    lemma_u32_bytes_injective(lo, 0);
                    lemma_u32_bytes_injective(hi, 0);
                }
            }
        }
        return Err(RecordError::BadFlag);
    };
    let count = read_u32(b, 35);
    if (len - HEADER_LEN) / 8 < count as usize || len - HEADER_LEN - 8 * (count as usize) < 8 {
        proof {
            assert forall|n: Node| #![trigger record_bytes(n)]
                storable(n) && b@ == record_bytes(n) implies false by {
                lemma_record_layout(n);
                lemma_u32_bytes_injective(count, n.children@.len() as u32);
            }
        }
        return Err(RecordError::Truncated);
    }
    let pos = HEADER_LEN + 8 * (count as usize);
    let name_lo = read_u32(b, pos);
    let name_hi = read_u32(b, pos + 4);
    let name_len = name_lo as u64 + (name_hi as u64) * 0x1_0000_0000;
    if name_len != (len - pos - 8) as u64 {
        proof {
            assert forall|n: Node| #![trigger record_bytes(n)]
                storable(n) && b@ == record_bytes(n) implies false by {
                lemma_record_layout(n);
                lemma_u32_bytes_injective(count, n.children@.len() as u32);
                let nl = encode_utf8(n.name@).len() as u64;
                lemma_u32_bytes_injective(name_lo, (nl % 0x1_0000_0000) as u32);
                lemma_u32_bytes_injective(name_hi, (nl / 0x1_0000_0000) as u32);
                assert(name_len == nl) by (nonlinear_arith)
                    requires
                        name_lo == (nl % 0x1_0000_0000) as u32,
                        name_hi == (nl / 0x1_0000_0000) as u32,
                        name_len == name_lo as u64 + (name_hi as u64) * 0x1_0000_0000,
                ;
            }
        }
        return Err(RecordError::Truncated);
    }
    let mut children: Vec<Handle> = Vec::new();
    let mut i: usize = 0;
    while i < count as usize
        invariant
            len == b@.len(),
            pos == HEADER_LEN + 8 * (count as int),
            pos + 8 <= len,
            i <= count,
            children@.len() == i,
            handles_bytes(children@) == b@.subrange(HEADER_LEN as int, HEADER_LEN + 8 * i),
        decreases count - i,
    {
        let h = read_handle(b, HEADER_LEN + 8 * i);
        let ghost before = children@;
        children.push(h);
        proof {
            assert(children@.drop_last() =~= before);
            assert(b@.subrange(HEADER_LEN as int, HEADER_LEN + 8 * (i + 1)) =~= b@.subrange(HEADER_LEN as int, HEADER_LEN + 8 * i)
                + b@.subrange(HEADER_LEN + 8 * i, HEADER_LEN + 8 * i + 8));
        }
        i += 1;
    }
    let mut raw: Vec<u8> = Vec::new();
    let mut j: usize = pos + 8;
    while j < len
        invariant
            len == b@.len(),
            pos + 8 <= j <= len,
            raw@ == b@.subrange(pos + 8, j as int),
        decreases len - j,
    {
        raw.push(b[j]);
        proof {
            assert(raw@ =~= b@.subrange(pos + 8, j + 1));
        }
        j += 1;
    }
    let name = match string_from_utf8(raw.as_slice()) {
        Some(name) => name,
        None => {
            proof {
                assert forall|n: Node| #![trigger record_bytes(n)]
                    storable(n) && b@ == record_bytes(n) implies false by {
                    lemma_record_layout(n);
                    lemma_u32_bytes_injective(count, n.children@.len() as u32);
                    vstd::utf8::encode_utf8_valid_utf8(n.name@);
                    assert(raw@ == encode_utf8(n.name@));
                }
            }
            return Err(RecordError::BadName);
        },
    };
    let node = Node {
        name,
        kind,
        visibility: vis == 1,
        global_visibility: true,
        parent,
        children,
        body,
        resource,
        original,
    };
    proof {
        vstd::utf8::decode_utf8_encode_utf8(raw@);
        assert(encode_utf8(node.name@) == raw@);
        assert(encode_utf8(node.name@).len() <= u64::MAX);
        assert(name_len == encode_utf8(node.name@).len());
        assert((name_len % 0x1_0000_0000) as u32 == name_lo && (name_len / 0x1_0000_0000) as u32 == name_hi) by (nonlinear_arith)
            requires
                name_len == name_lo as u64 + (name_hi as u64) * 0x1_0000_0000,
        ;
        assert(b@.subrange(26, 35) =~= seq![tag] + b@.subrange(27, 31) + b@.subrange(31, 35));
        if tag == 1 {
            assert(((lo as u64 + (hi as u64) * 0x1_0000_0000) % 0x1_0000_0000) as u32 == lo) by (nonlinear_arith);
            assert(((lo as u64 + (hi as u64) * 0x1_0000_0000) / 0x1_0000_0000) as u32 == hi) by (nonlinear_arith);
        }
        assert(resource_bytes(resource) =~= seq![tag] + u32_bytes(lo) + u32_bytes(hi));
        assert(b@.subrange(2, 6) =~= b@.subrange(2, 10).subrange(0, 4));
        assert(b@.subrange(6, 10) =~= b@.subrange(2, 10).subrange(4, 8));
        assert(b@.subrange(10, 14) =~= b@.subrange(10, 18).subrange(0, 4));
        assert(b@.subrange(14, 18) =~= b@.subrange(10, 18).subrange(4, 8));
        assert(b@.subrange(18, 22) =~= b@.subrange(18, 26).subrange(0, 4));
        assert(b@.subrange(22, 26) =~= b@.subrange(18, 26).subrange(4, 8));
        assert(handle_bytes(parent).subrange(0, 4) =~= u32_bytes(parent.index));
        assert(handle_bytes(parent).subrange(4, 8) =~= u32_bytes(parent.generation));
        assert(handle_bytes(body).subrange(0, 4) =~= u32_bytes(body.index));
        assert(handle_bytes(body).subrange(4, 8) =~= u32_bytes(body.generation));
        assert(handle_bytes(original).subrange(0, 4) =~= u32_bytes(original.index));
        assert(handle_bytes(original).subrange(4, 8) =~= u32_bytes(original.generation));
        lemma_bytes_are_record(b@, node);
        assert forall|n: Node| #![trigger record_bytes(n)]
            storable(n) && b@ == record_bytes(n) implies same_record(node, n) by {
            lemma_record_round_trip(node, n);
        }
    }
    Ok(node)
}

/// Bytes that hold each field of `n` where the record puts it are `n`'s
/// record.
proof fn lemma_bytes_are_record(b: Seq<u8>, n: Node)
    requires
        storable(n),
        b.len() == HEADER_LEN + 8 * n.children@.len() + 8 + encode_utf8(n.name@).len(),
        b[0] == n.kind.spec_id(),
        b[1] == flag_byte(n.visibility),
        b.subrange(2, 6) == u32_bytes(n.parent.index),
        b.subrange(6, 10) == u32_bytes(n.parent.generation),
        b.subrange(10, 14) == u32_bytes(n.body.index),
        b.subrange(14, 18) == u32_bytes(n.body.generation),
        b.subrange(18, 22) == u32_bytes(n.original.index),
        b.subrange(22, 26) == u32_bytes(n.original.generation),
        b.subrange(26, 35) == resource_bytes(n.resource),
        b.subrange(35, 39) == u32_bytes(n.children@.len() as u32),
        b.subrange(39, 39 + 8 * (n.children@.len() as int)) == handles_bytes(n.children@),
        b.subrange(39 + 8 * (n.children@.len() as int), 43 + 8 * (n.children@.len() as int)) == u32_bytes(
            ((encode_utf8(n.name@).len() as u64) % 0x1_0000_0000) as u32,
        ),
        b.subrange(43 + 8 * (n.children@.len() as int), 47 + 8 * (n.children@.len() as int)) == u32_bytes(
            ((encode_utf8(n.name@).len() as u64) / 0x1_0000_0000) as u32,
        ),
        b.subrange(47 + 8 * (n.children@.len() as int), b.len() as int) == encode_utf8(n.name@),
    ensures
        b == record_bytes(n),
{
    lemma_record_layout(n);
    let rb = record_bytes(n);
    let k: int = 8 * (n.children@.len() as int);
    assert forall|j: int| 0 <= j < b.len() implies b[j] == rb[j] by {
        if 2 <= j < 6 {
            assert(b[j] == b.subrange(2, 6)[j - 2] && rb[j] == rb.subrange(2, 6)[j - 2]);
        } else if 6 <= j < 10 {
            assert(b[j] == b.subrange(6, 10)[j - 6] && rb[j] == rb.subrange(6, 10)[j - 6]);
        } else if 10 <= j < 14 {
            assert(b[j] == b.subrange(10, 14)[j - 10] && rb[j] == rb.subrange(10, 14)[j - 10]);
        } else if 14 <= j < 18 {
            assert(b[j] == b.subrange(14, 18)[j - 14] && rb[j] == rb.subrange(14, 18)[j - 14]);
        } else if 18 <= j < 22 {
            assert(b[j] == b.subrange(18, 22)[j - 18] && rb[j] == rb.subrange(18, 22)[j - 18]);
        } else if 22 <= j < 26 {
            assert(b[j] == b.subrange(22, 26)[j - 22] && rb[j] == rb.subrange(22, 26)[j - 22]);
        } else if 26 <= j < 35 {
            assert(b[j] == b.subrange(26, 35)[j - 26] && rb[j] == rb.subrange(26, 35)[j - 26]);
        } else if 35 <= j < 39 {
            assert(b[j] == b.subrange(35, 39)[j - 35] && rb[j] == rb.subrange(35, 39)[j - 35]);
        } else if 39 <= j < 39 + k {
            assert(b[j] == b.subrange(39, 39 + k)[j - 39] && rb[j] == rb.subrange(39, 39 + k)[j - 39]);
        } else if 39 + k <= j < 43 + k {
            assert(b[j] == b.subrange(39 + k, 43 + k)[j - 39 - k] && rb[j] == rb.subrange(39 + k, 43 + k)[j - 39 - k]);
        } else if 43 + k <= j < 47 + k {
            assert(b[j] == b.subrange(43 + k, 47 + k)[j - 43 - k] && rb[j] == rb.subrange(43 + k, 47 + k)[j - 43 - k]);
        } else if 47 + k <= j {
            assert(b[j] == b.subrange(47 + k, b.len() as int)[j - 47 - k]);
            assert(rb[j] == rb.subrange(47 + k, rb.len() as int)[j - 47 - k]);
        }
    }
    assert(b =~= rb);
}

} // verus!
