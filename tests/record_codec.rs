use rg3d_scene::graph::Graph;
use rg3d_scene::handle::Handle;
use rg3d_scene::kind::NodeKind;
use rg3d_scene::node::Node;
use rg3d_scene::record::{decode_record, encode_record, RecordError, HEADER_LEN};

fn sample() -> Node {
    let mut n = Node::new(NodeKind::Camera);
    n.parent = Handle::new(1, 2);
    n.children = vec![Handle::new(3, 4)];
    n.set_resource(0x1_0000_0005);
    n
}

#[test]
fn record_has_exact_layout() {
    let bytes = encode_record(&sample());
    let expected: Vec<u8> = vec![
        2, 1, // kind id, visibility
        1, 0, 0, 0, 2, 0, 0, 0, // parent
        255, 255, 255, 255, 0, 0, 0, 0, // body: none
        255, 255, 255, 255, 0, 0, 0, 0, // original: none
        1, 5, 0, 0, 0, 1, 0, 0, 0, // resource
        1, 0, 0, 0, // child count
        3, 0, 0, 0, 4, 0, 0, 0, // child
        4, 0, 0, 0, 0, 0, 0, 0, // name length in bytes
        b'N', b'o', b'd', b'e', // name
    ];
    assert_eq!(bytes, expected);
    assert_eq!(bytes.len(), HEADER_LEN + 8 + 8 + 4);
}

#[test]
fn record_round_trip_keeps_fields() {
    let mut n = sample();
    n.set_visibility(false);
    n.set_body(Handle::new(7, 9));
    n.set_original_handle(Handle::new(11, 12));
    n.children.push(Handle::new(5, 6));
    let back = decode_record(&encode_record(&n)).unwrap();
    assert_eq!(*back.get_kind(), NodeKind::Camera);
    assert!(!back.get_visibility());
    assert_eq!(back.get_parent(), Handle::new(1, 2));
    assert_eq!(back.get_body(), Handle::new(7, 9));
    assert_eq!(back.get_original_handle(), Handle::new(11, 12));
    assert_eq!(back.get_resource(), Some(0x1_0000_0005));
    assert_eq!(back.get_children(), &[Handle::new(3, 4), Handle::new(5, 6)]);
    assert_eq!(back.get_name(), "Node");
    n.set_name("Lämpchen ✓".to_string());
    let named = decode_record(&encode_record(&n)).unwrap();
    assert_eq!(named.get_name(), "Lämpchen ✓");
    n.set_name(String::new());
    assert_eq!(decode_record(&encode_record(&n)).unwrap().get_name(), "");
    for id in 0u8..5 {
        let m = Node::new(NodeKind::new(id).unwrap());
        let again = decode_record(&encode_record(&m)).unwrap();
        assert_eq!(again.get_kind().id(), id);
        assert_eq!(again.get_resource(), None);
        assert!(again.get_children().is_empty());
    }
}

#[test]
fn record_errors() {
    let good = encode_record(&sample());
    assert_eq!(decode_record(&good[..10]).err(), Some(RecordError::Truncated));
    assert_eq!(decode_record(&[]).err(), Some(RecordError::Truncated));
    let mut longer = good.clone();
    longer.push(0);
    assert_eq!(decode_record(&longer).err(), Some(RecordError::Truncated));
    assert_eq!(decode_record(&good[..good.len() - 1]).err(), Some(RecordError::Truncated));
    let mut bad_kind = good.clone();
    bad_kind[0] = 9;
    assert_eq!(decode_record(&bad_kind).err(), Some(RecordError::UnknownVariant(9)));
    let mut bad_vis = good.clone();
    bad_vis[1] = 2;
    assert_eq!(decode_record(&bad_vis).err(), Some(RecordError::BadFlag));
    let mut bad_tag = good.clone();
    bad_tag[26] = 3;
    assert_eq!(decode_record(&bad_tag).err(), Some(RecordError::BadFlag));
    let mut bad_name = good.clone();
    let last = bad_name.len() - 1;
    bad_name[last] = 0xff;
    assert_eq!(decode_record(&bad_name).err(), Some(RecordError::BadName));
    let mut none_with_value = good.clone();
    none_with_value[26] = 0;
    assert_eq!(decode_record(&none_with_value).err(), Some(RecordError::BadFlag));
}

#[test]
fn graph_records_read_back_as_the_same_nodes() {
    let mut g = Graph::new();
    let r = g.add(Handle::none(), Node::new(NodeKind::Base)).unwrap();
    let a = g.add(r, Node::new(NodeKind::Light)).unwrap();
    let b = g.add(r, Node::new(NodeKind::Mesh)).unwrap();
    let c = g.add(a, Node::new(NodeKind::ParticleSystem)).unwrap();
    g.reparent(b, a).unwrap();
    let recs = g.records();
    assert_eq!(recs.len(), 4);
    for (h, bytes) in &recs {
        let live = g.get(*h).unwrap();
        let back = decode_record(bytes).unwrap();
        assert_eq!(back.get_kind(), live.get_kind());
        assert_eq!(back.get_parent(), live.get_parent());
        assert_eq!(back.get_children(), live.get_children());
        assert_eq!(back.get_visibility(), live.get_visibility());
        assert_eq!(back.get_name(), live.get_name());
    }
    let a_rec = recs.iter().find(|(h, _)| *h == a).unwrap();
    assert_eq!(decode_record(&a_rec.1).unwrap().get_children(), &[c, b]);
}
