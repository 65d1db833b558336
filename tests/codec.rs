use gossip_core::codec::{decode_item, encode_item, CONTACT_ITEM_LEN, SHORT_ITEM_LEN};
use gossip_core::record::{GossipItem, Payload, SocketAddress};

fn vote() -> GossipItem {
    GossipItem {
        origin: 0x0102_0304_0506_0708,
        shred_version: 0x6c97,
        wallclock: 100,
        version: 1,
        payload: Payload::Vote { slot: 0x1122 },
    }
}

fn contact() -> GossipItem {
    let a = |port| SocketAddress { ip: 0x7f00_0001, port };
    GossipItem {
        origin: 9,
        shred_version: 27799,
        wallclock: 150,
        version: 2,
        payload: Payload::Contact { gossip: a(8001), tvu: a(8002), tpu: a(8003), rpc: a(8899) },
    }
}

#[test]
fn vote_encoding_is_little_endian_fixed_layout() {
    let bytes = encode_item(&vote());
    assert_eq!(bytes.len(), SHORT_ITEM_LEN);
    assert_eq!(&bytes[0..8], &[8, 7, 6, 5, 4, 3, 2, 1]);
    assert_eq!(&bytes[8..10], &[0x97, 0x6c]);
    assert_eq!(&bytes[10..18], &[100, 0, 0, 0, 0, 0, 0, 0]);
    assert_eq!(&bytes[18..26], &[1, 0, 0, 0, 0, 0, 0, 0]);
    assert_eq!(bytes[26], 2);
    assert_eq!(&bytes[27..35], &[0x22, 0x11, 0, 0, 0, 0, 0, 0]);
}

#[test]
fn contact_encoding_layout() {
    let bytes = encode_item(&contact());
    assert_eq!(bytes.len(), CONTACT_ITEM_LEN);
    assert_eq!(bytes[26], 0);
    assert_eq!(&bytes[27..33], &[1, 0, 0, 0x7f, 0x41, 0x1f]);
    assert_eq!(&bytes[45..51], &[1, 0, 0, 0x7f, 0xc3, 0x22]);
}

#[test]
fn decode_inverts_encode() {
    for item in [vote(), contact()] {
        assert_eq!(decode_item(&encode_item(&item)), Some(item));
    }
    let hb = GossipItem { payload: Payload::Heartbeat { token: u64::MAX }, ..vote() };
    assert_eq!(decode_item(&encode_item(&hb)), Some(hb));
}

#[test]
fn malformed_bytes_are_rejected() {
    let bytes = encode_item(&vote());
    assert_eq!(decode_item(&bytes[..bytes.len() - 1]), None);
    assert_eq!(decode_item(&[]), None);
    let mut longer = bytes.clone();
    longer.push(0);
    assert_eq!(decode_item(&longer), None);
    let mut unknown = bytes.clone();
    unknown[26] = 3;
    assert_eq!(decode_item(&unknown), None);
    let mut wrong_len = bytes;
    wrong_len[26] = 0;
    assert_eq!(decode_item(&wrong_len), None);
}
