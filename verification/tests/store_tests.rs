use cimvr_engine::ecs::Ecs;
use cimvr_engine::serial::{encode_receive_buf, encode_send_buf};
use cimvr_engine::types::{EcsData, Locality, MessageData, ReceiveBuf, SendBuf, ChannelId};

#[test]
fn add_then_get_returns_bytes() {
    let mut s = Ecs::new();
    let e = s.create_entity();
    assert!(s.add(e, &b"Pos".to_vec(), vec![1, 2, 3]).is_ok());
    assert_eq!(s.get(e, &b"Pos".to_vec()).unwrap(), &vec![1, 2, 3]);
    // whole-value overwrite of the same size
    assert!(s.add(e, &b"Pos".to_vec(), vec![9, 8, 7]).is_ok());
    assert_eq!(s.get(e, &b"Pos".to_vec()).unwrap(), &vec![9, 8, 7]);
}

#[test]
fn first_write_pins_component_size() {
    let mut s = Ecs::new();
    assert!(s.add(1, &b"X".to_vec(), vec![0; 4]).is_ok());
    assert!(s.add(2, &b"X".to_vec(), vec![0; 8]).is_err());
    assert!(s.get(2, &b"X".to_vec()).is_none());
}

#[test]
fn destroy_drops_every_component() {
    let mut s = Ecs::new();
    let e = s.create_entity();
    s.add(e, &b"A".to_vec(), vec![1]).unwrap();
    s.add(e, &b"B".to_vec(), vec![2]).unwrap();
    s.destroy(e);
    assert!(s.get(e, &b"A".to_vec()).is_none());
    assert!(s.get(e, &b"B".to_vec()).is_none());
    // destroying an absent entity is a no-op
    s.destroy(e);
}

#[test]
fn remove_drops_one_instance() {
    let mut s = Ecs::new();
    s.add(5, &b"A".to_vec(), vec![1]).unwrap();
    s.add(5, &b"B".to_vec(), vec![2]).unwrap();
    s.remove(5, &b"A".to_vec());
    assert!(s.get(5, &b"A".to_vec()).is_none());
    assert_eq!(s.get(5, &b"B".to_vec()).unwrap(), &vec![2]);
}

#[test]
fn iter_keeps_insertion_order() {
    let mut s = Ecs::new();
    s.add(3, &b"C".to_vec(), vec![3]).unwrap();
    s.add(1, &b"C".to_vec(), vec![1]).unwrap();
    s.add(2, &b"C".to_vec(), vec![2]).unwrap();
    // overwrite keeps the original position
    s.add(3, &b"C".to_vec(), vec![9]).unwrap();
    let rows = s.iter(&b"C".to_vec());
    let ids: Vec<u128> = rows.iter().map(|p| p.0).collect();
    assert_eq!(ids, vec![3, 1, 2]);
    assert_eq!(rows[0].1, vec![9]);
    assert!(s.iter(&b"unseen".to_vec()).is_empty());
}

#[test]
fn find_needs_every_component() {
    let mut s = Ecs::new();
    s.add(1, &b"A".to_vec(), vec![0]).unwrap();
    s.add(2, &b"A".to_vec(), vec![0]).unwrap();
    s.add(2, &b"B".to_vec(), vec![0]).unwrap();
    assert_eq!(s.find(&vec![b"A".to_vec(), b"B".to_vec()]), Some(2));
    assert_eq!(s.find(&vec![b"A".to_vec(), b"C".to_vec()]), None);
    assert_eq!(s.find(&vec![]), None);
}

#[test]
fn fresh_ids_increase() {
    let mut s = Ecs::new();
    let a = s.create_entity();
    let b = s.create_entity();
    assert_ne!(a, b);
    assert_eq!(b, a + 1);
}

#[test]
fn empty_send_buf_encoding_is_fixed() {
    let buf = SendBuf {
        systems: vec![],
        commands: vec![],
        ecs: EcsData { entities: vec![], columns: vec![] },
        outbox: vec![],
    };
    let bytes = encode_send_buf(&buf);
    // version tag, then four zero counts and an empty query block
    let mut expect = vec![1u8];
    expect.extend_from_slice(&[0u8; 40]);
    assert_eq!(bytes, expect);
}

#[test]
fn receive_buf_encoding_is_deterministic() {
    let mk = || ReceiveBuf {
        system: Some(2),
        inbox: vec![(
            ChannelId { id: b"tick".to_vec(), locality: Locality::Local },
            vec![MessageData {
                channel: ChannelId { id: b"tick".to_vec(), locality: Locality::Local },
                data: vec![1, 2, 3],
                client: None,
            }],
        )],
        ecs: EcsData { entities: vec![42], columns: vec![vec![vec![7, 7]]] },
        is_server: false,
    };
    let a = encode_receive_buf(&mk());
    let b = encode_receive_buf(&mk());
    assert_eq!(a, b);
    // little-endian length of the payload sits right after its count
    assert_eq!(a[0], 1); // version
    assert_eq!(a[1], 1); // system present
    assert_eq!(&a[2..10], &2u64.to_le_bytes());
}
