use vstd::bytes::{
    lemma_auto_spec_u16_to_from_le_bytes, lemma_auto_spec_u32_to_from_le_bytes,
    lemma_auto_spec_u64_to_from_le_bytes, spec_u16_from_le_bytes, spec_u16_to_le_bytes,
    spec_u32_from_le_bytes, spec_u32_to_le_bytes, spec_u64_from_le_bytes, spec_u64_to_le_bytes,
    u16_from_le_bytes, u16_to_le_bytes, u32_from_le_bytes, u32_to_le_bytes, u64_from_le_bytes,
    u64_to_le_bytes,
};
use vstd::prelude::*;
use vstd::slice::slice_subrange;

use crate::record::{GossipItem, Payload, SocketAddress};

verus! {

/// Bytes before the payload: origin, tag, wallclock, version.
pub const HEADER_LEN: usize = 26;

/// Encoded length of an item with a contact payload.
pub const CONTACT_ITEM_LEN: usize = 51;

/// Encoded length of an item with a heartbeat or vote payload.
pub const SHORT_ITEM_LEN: usize = 35;

/// An address on the wire: the IPv4 address, then the port, little-endian.
pub open spec fn addr_bytes(a: SocketAddress) -> Seq<u8> {
    spec_u32_to_le_bytes(a.ip) + spec_u16_to_le_bytes(a.port)
}

/// A payload on the wire: a kind byte, then its fields.
pub open spec fn payload_bytes(p: Payload) -> Seq<u8> {
    match p {
        Payload::Contact { gossip, tvu, tpu, rpc } => seq![0u8] + addr_bytes(gossip) + addr_bytes(
            tvu,
        ) + addr_bytes(tpu) + addr_bytes(rpc),
        Payload::Heartbeat { token } => seq![1u8] + spec_u64_to_le_bytes(token),
        Payload::Vote { slot } => seq![2u8] + spec_u64_to_le_bytes(slot),
    }
}

/// An item on the wire: the header fields little-endian, then the payload.
pub open spec fn item_bytes(x: GossipItem) -> Seq<u8> {
    spec_u64_to_le_bytes(x.origin) + spec_u16_to_le_bytes(x.shred_version) + spec_u64_to_le_bytes(
        x.wallclock,
    ) + spec_u64_to_le_bytes(x.version) + payload_bytes(x.payload)
}

proof fn lemma_addr_bytes(a: SocketAddress)
    ensures
        addr_bytes(a).len() == 6,
        spec_u32_from_le_bytes(addr_bytes(a).subrange(0, 4)) == a.ip,
        spec_u16_from_le_bytes(addr_bytes(a).subrange(4, 6)) == a.port,
{
    lemma_auto_spec_u16_to_from_le_bytes();
    lemma_auto_spec_u32_to_from_le_bytes();
    assert(addr_bytes(a).subrange(0, 4) =~= spec_u32_to_le_bytes(a.ip));
    assert(addr_bytes(a).subrange(4, 6) =~= spec_u16_to_le_bytes(a.port));
}

proof fn lemma_item_layout(x: GossipItem)
    ensures
        item_bytes(x).len() == HEADER_LEN + payload_bytes(x.payload).len(),
        item_bytes(x).subrange(0, 8) == spec_u64_to_le_bytes(x.origin),
        item_bytes(x).subrange(8, 10) == spec_u16_to_le_bytes(x.shred_version),
        item_bytes(x).subrange(10, 18) == spec_u64_to_le_bytes(x.wallclock),
        item_bytes(x).subrange(18, 26) == spec_u64_to_le_bytes(x.version),
        item_bytes(x).subrange(26, item_bytes(x).len() as int) == payload_bytes(x.payload),
        payload_bytes(x.payload).len() == (if x.payload is Contact {
            CONTACT_ITEM_LEN - HEADER_LEN
        } else {
            SHORT_ITEM_LEN - HEADER_LEN
        }),
{
    lemma_auto_spec_u16_to_from_le_bytes();
    lemma_auto_spec_u32_to_from_le_bytes();
    lemma_auto_spec_u64_to_from_le_bytes();
    let s = item_bytes(x);
    assert(spec_u64_to_le_bytes(x.origin).len() == 8);
    assert(spec_u64_to_le_bytes(x.wallclock).len() == 8);
    assert(spec_u64_to_le_bytes(x.version).len() == 8);
    assert(s.subrange(0, 8) =~= spec_u64_to_le_bytes(x.origin));
    assert(s.subrange(8, 10) =~= spec_u16_to_le_bytes(x.shred_version));
    assert(s.subrange(10, 18) =~= spec_u64_to_le_bytes(x.wallclock));
    assert(s.subrange(18, 26) =~= spec_u64_to_le_bytes(x.version));
    assert(s.subrange(26, s.len() as int) =~= payload_bytes(x.payload));
    match x.payload {
        Payload::Contact { gossip, tvu, tpu, rpc } => {
            lemma_addr_bytes(gossip);
            lemma_addr_bytes(tvu);
            lemma_addr_bytes(tpu);
            lemma_addr_bytes(rpc);
        },
        Payload::Heartbeat { token } => {
            assert(spec_u64_to_le_bytes(token).len() == 8);
        },
        Payload::Vote { slot } => {
            assert(spec_u64_to_le_bytes(slot).len() == 8);
        },
    }
}

/// Distinct items have distinct encodings, so decoding an encoding gives
/// back the item that was encoded.
pub proof fn lemma_item_bytes_injective(x: GossipItem, y: GossipItem)
    requires
        item_bytes(x) == item_bytes(y),
    ensures
        x == y,
{
    lemma_auto_spec_u16_to_from_le_bytes();
    lemma_auto_spec_u32_to_from_le_bytes();
    lemma_auto_spec_u64_to_from_le_bytes();
    lemma_item_layout(x);
    lemma_item_layout(y);
    assert(spec_u64_from_le_bytes(spec_u64_to_le_bytes(x.origin)) == x.origin);
    assert(spec_u64_from_le_bytes(spec_u64_to_le_bytes(y.origin)) == y.origin);
    assert(spec_u64_from_le_bytes(spec_u64_to_le_bytes(x.wallclock)) == x.wallclock);
    assert(spec_u64_from_le_bytes(spec_u64_to_le_bytes(y.wallclock)) == y.wallclock);
    assert(spec_u64_from_le_bytes(spec_u64_to_le_bytes(x.version)) == x.version);
    assert(spec_u64_from_le_bytes(spec_u64_to_le_bytes(y.version)) == y.version);
    let p = payload_bytes(x.payload);
    assert(p == payload_bytes(y.payload));
    assert(p[0] == payload_bytes(y.payload)[0]);
    match (x.payload, y.payload) {
        (
            Payload::Contact { gossip, tvu, tpu, rpc },
            Payload::Contact { gossip: g2, tvu: v2, tpu: t2, rpc: r2 },
        ) => {
            lemma_addr_bytes(gossip);
            lemma_addr_bytes(tvu);
            lemma_addr_bytes(tpu);
            lemma_addr_bytes(rpc);
            lemma_addr_bytes(g2);
            lemma_addr_bytes(v2);
            lemma_addr_bytes(t2);
            lemma_addr_bytes(r2);
            assert(p.subrange(1, 7) =~= addr_bytes(gossip));
            assert(p.subrange(1, 7) =~= addr_bytes(g2));
            assert(p.subrange(7, 13) =~= addr_bytes(tvu));
            assert(p.subrange(7, 13) =~= addr_bytes(v2));
            assert(p.subrange(13, 19) =~= addr_bytes(tpu));
            assert(p.subrange(13, 19) =~= addr_bytes(t2));
            assert(p.subrange(19, 25) =~= addr_bytes(rpc));
            assert(p.subrange(19, 25) =~= addr_bytes(r2));
        },
        (Payload::Heartbeat { token }, Payload::Heartbeat { token: t2 }) => {
            assert(p.subrange(1, 9) =~= spec_u64_to_le_bytes(token));
            assert(p.subrange(1, 9) =~= spec_u64_to_le_bytes(t2));
            assert(spec_u64_from_le_bytes(spec_u64_to_le_bytes(token)) == token);
            assert(spec_u64_from_le_bytes(spec_u64_to_le_bytes(t2)) == t2);
        },
        (Payload::Vote { slot }, Payload::Vote { slot: s2 }) => {
            assert(p.subrange(1, 9) =~= spec_u64_to_le_bytes(slot));
            assert(p.subrange(1, 9) =~= spec_u64_to_le_bytes(s2));
            assert(spec_u64_from_le_bytes(spec_u64_to_le_bytes(slot)) == slot);
            assert(spec_u64_from_le_bytes(spec_u64_to_le_bytes(s2)) == s2);
        },
        _ => {
            assert(p[0] != payload_bytes(y.payload)[0]);
        },
    }
}

fn encode_addr(out: &mut Vec<u8>, a: &SocketAddress)
    ensures
        final(out)@ == old(out)@ + addr_bytes(*a),
{
    let mut ip = u32_to_le_bytes(a.ip);
    let mut port = u16_to_le_bytes(a.port);
    out.append(&mut ip);
    out.append(&mut port);
    assert(final(out)@ =~= old(out)@ + addr_bytes(*a));
}

/// The wire encoding of an item.
pub fn encode_item(x: &GossipItem) -> (r: Vec<u8>)
    ensures
        r@ == item_bytes(*x),
{
    let mut out = u64_to_le_bytes(x.origin);
    let mut b = u16_to_le_bytes(x.shred_version);
    out.append(&mut b);
    let mut b = u64_to_le_bytes(x.wallclock);
    out.append(&mut b);
    let mut b = u64_to_le_bytes(x.version);
    out.append(&mut b);
    let ghost header = out@;
    match x.payload {
        Payload::Contact { gossip, tvu, tpu, rpc } => {
            out.push(0u8);
            encode_addr(&mut out, &gossip);
            encode_addr(&mut out, &tvu);
            encode_addr(&mut out, &tpu);
            encode_addr(&mut out, &rpc);
        },
        Payload::Heartbeat { token } => {
            out.push(1u8);
            let mut b = u64_to_le_bytes(token);
            out.append(&mut b);
        },
        Payload::Vote { slot } => {
            out.push(2u8);
            let mut b = u64_to_le_bytes(slot);
            out.append(&mut b);
        },
    }
    assert(out@ =~= header + payload_bytes(x.payload));
    assert(out@ =~= item_bytes(*x));
    out
}

fn decode_addr(b: &[u8], at: usize) -> (r: SocketAddress)
    requires
        at + 6 <= b@.len(),
    ensures
        addr_bytes(r) == b@.subrange(at as int, at + 6),
{
    proof {
        lemma_auto_spec_u16_to_from_le_bytes();
        lemma_auto_spec_u32_to_from_le_bytes();
    }
    let n = b.len();
    assert(at + 6 <= n);
    let ip = u32_from_le_bytes(slice_subrange(b, at, at + 4));
    let port = u16_from_le_bytes(slice_subrange(b, at + 4, at + 6));
    let r = SocketAddress { ip, port };
    proof {
        assert(spec_u32_to_le_bytes(ip) == b@.subrange(at as int, at + 4));
        assert(spec_u16_to_le_bytes(port) == b@.subrange(at + 4, at + 6));
        assert(addr_bytes(r) =~= b@.subrange(at as int, at + 6));
    }
    r
}

/// Decodes one item; `None` when the bytes are not the encoding of any item
/// (truncated, too long, or with an unknown payload kind).
pub fn decode_item(b: &[u8]) -> (r: Option<GossipItem>)
    ensures
        r matches Some(x) ==> item_bytes(x) == b@,
        r is None ==> forall|x: GossipItem| item_bytes(x) != b@,
{
    proof {
        lemma_auto_spec_u16_to_from_le_bytes();
        lemma_auto_spec_u64_to_from_le_bytes();
        assert forall|x: GossipItem| item_bytes(x) == b@ implies b@.len() > HEADER_LEN && ((b@[26]
            == 0 && b@.len() == CONTACT_ITEM_LEN) || ((b@[26] == 1 || b@[26] == 2) && b@.len()
            == SHORT_ITEM_LEN)) by {
            lemma_item_layout(x);
            assert(b@[26] == payload_bytes(x.payload)[0]);
        }
    }
    let n = b.len();
    if n <= HEADER_LEN {
        return None;
    }
    let kind = b[HEADER_LEN];
    let payload = if kind == 0 && n == CONTACT_ITEM_LEN {
        let gossip = decode_addr(b, 27);
        let tvu = decode_addr(b, 33);
        let tpu = decode_addr(b, 39);
        let rpc = decode_addr(b, 45);
        let p = Payload::Contact { gossip, tvu, tpu, rpc };
        assert(payload_bytes(p) =~= b@.subrange(26, n as int));
        p
    } else if (kind == 1 || kind == 2) && n == SHORT_ITEM_LEN {
        let v = u64_from_le_bytes(slice_subrange(b, 27, 35));
        let p = if kind == 1 {
            Payload::Heartbeat { token: v }
        } else {
            Payload::Vote { slot: v }
        };
        assert(spec_u64_to_le_bytes(v) == b@.subrange(27, 35));
        assert(payload_bytes(p) =~= b@.subrange(26, n as int));
        p
    } else {
        return None;
    };
    let origin = u64_from_le_bytes(slice_subrange(b, 0, 8));
    let shred_version = u16_from_le_bytes(slice_subrange(b, 8, 10));
    let wallclock = u64_from_le_bytes(slice_subrange(b, 10, 18));
    let version = u64_from_le_bytes(slice_subrange(b, 18, 26));
    let x = GossipItem { origin, shred_version, wallclock, version, payload };
    proof {
        assert(spec_u64_to_le_bytes(origin) == b@.subrange(0, 8));
        assert(spec_u16_to_le_bytes(shred_version) == b@.subrange(8, 10));
        assert(spec_u64_to_le_bytes(wallclock) == b@.subrange(10, 18));
        assert(spec_u64_to_le_bytes(version) == b@.subrange(18, 26));
        assert(item_bytes(x) =~= b@);
    }
    Some(x)
}

} // verus!
