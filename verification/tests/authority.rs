use onion_routing::authority::{
    asks_for_path, pick_path, stored_key,
    get_nodes_and_keys, get_random_path, handle_request, list_path, ok_response_text,
    path_request_text, NodeKey,
};
use onion_routing::directory::parse_array;
use std::sync::{Arc, Mutex};

#[test]
fn get_nodes_and_keys_test() {
    let test_vec_node = Vec::from([
        NodeKey { node: "1".to_string(), key: "1".to_string() },
        NodeKey { node: "2".to_string(), key: "2".to_string() },
        NodeKey { node: "3".to_string(), key: "3".to_string() },
    ]);
    let nodes = Arc::new(Mutex::new(test_vec_node));

    let nodes_and_keys = get_nodes_and_keys(&nodes.lock().unwrap());
    let node_key1 = "node: 1, key: 1".to_string();
    let node_key2 = "node: 2, key: 2".to_string();
    let node_key3 = "node: 3, key: 3".to_string();

    assert!(
        nodes_and_keys.contains(&node_key1)
            && nodes_and_keys.contains(&node_key2)
            && nodes_and_keys.contains(&node_key3)
    );
}

#[test]
fn get_random_path_test() {
    let index = get_random_path(5);
    let all_index: [usize; 5] = [0, 1, 2, 3, 4];

    for i in index {
        assert!(all_index.contains(&i));
    }
}

#[test]
fn random_path_has_distinct_indices() {
    for _ in 0..50 {
        let index = get_random_path(4);
        assert!(index.iter().all(|i| *i < 4));
        assert!(index[0] != index[1] && index[0] != index[2] && index[1] != index[2]);
    }
    let mut exact = get_random_path(3);
    exact.sort();
    assert_eq!(exact, [0, 1, 2]);
}

#[test]
fn node_key_text() {
    let n = NodeKey { node: "127.0.0.1:3000".to_string(), key: "k".to_string() };
    assert_eq!(n.to_string(), "node: 127.0.0.1:3000, key: k");
}

fn known_nodes() -> Vec<NodeKey> {
    vec![
        NodeKey { node: "a".to_string(), key: "ka".to_string() },
        NodeKey { node: "b".to_string(), key: "kb".to_string() },
        NodeKey { node: "c".to_string(), key: "kc".to_string() },
        NodeKey { node: "d".to_string(), key: "kd".to_string() },
    ]
}

#[test]
fn list_path_writes_nodes_in_path_order() {
    let listing = list_path(&known_nodes(), [3, 0, 2]);
    assert_eq!(
        listing,
        "\\node: d, key: kd\\\\node: a, key: ka\\\\node: c, key: kc\\"
    );
}

#[test]
fn client_reads_back_the_listed_path() {
    let listing = list_path(&known_nodes(), [1, 3, 0]);
    let (nodes, keys) = parse_array(listing);
    assert_eq!(nodes, vec!["b", "d", "a"]);
    assert_eq!(keys, vec!["kb", "kd", "ka"]);
}

#[test]
fn path_request_is_answered_with_a_path() {
    let mut nodes = known_nodes();
    let reply = handle_request(&mut nodes, path_request_text().into_bytes(), "9.9.9.9:1".to_string());
    assert_eq!(nodes.len(), 4);
    let (addrs, _keys) = parse_array(reply);
    assert_eq!(addrs.len(), 3);
    assert!(addrs.iter().all(|a| ["a", "b", "c", "d"].contains(&a.as_str())));
}

#[test]
fn announcement_is_recorded_and_acknowledged() {
    let mut nodes = Vec::new();
    let reply = handle_request(&mut nodes, b"secretkey".to_vec(), "10.0.0.1:4000".to_string());
    assert_eq!(reply, "HTTP/1.1 200 OK\r\n");
    assert_eq!(nodes.len(), 1);
    assert_eq!(nodes[0].node, "10.0.0.1:4000");
    assert_eq!(nodes[0].key, "secretkey");
    assert_eq!(ok_response_text(), "HTTP/1.1 200 OK\r\n");
    assert_eq!(path_request_text(), "GET /nodes HTTPS/1.1");
}

#[test]
fn only_data_mentioning_get_asks_for_a_path() {
    assert!(asks_for_path(b"GET /nodes HTTPS/1.1"));
    assert!(asks_for_path(b"xx\xffGETxx"));
    assert!(!asks_for_path(b"GE T"));
    assert!(!asks_for_path(b""));
    assert!(!asks_for_path(b"get"));
}

#[test]
fn pick_path_takes_each_draw_out_of_what_is_left() {
    assert_eq!(pick_path(5, [4, 0, 2]), [4, 0, 3]);
    assert_eq!(pick_path(3, [0, 0, 0]), [0, 1, 2]);
    assert_eq!(pick_path(3, [2, 1, 0]), [2, 1, 0]);
    assert_eq!(pick_path(4, [1, 1, 1]), [1, 2, 3]);
}

#[test]
fn a_binary_key_is_recorded_as_hex() {
    let mut nodes = Vec::new();
    let key = vec![0xffu8, 0x00, 0x10, 0xab];
    let reply = handle_request(&mut nodes, key, "10.0.0.2:4000".to_string());
    assert_eq!(reply, "HTTP/1.1 200 OK\r\n");
    assert_eq!(nodes.len(), 1);
    assert_eq!(nodes[0].node, "10.0.0.2:4000");
    assert_eq!(nodes[0].key, "ff0010ab");
    assert_eq!(stored_key(b"plain"), "plain");
    assert_eq!(stored_key(&[0xc3u8, 0xa9]), "\u{e9}");
    assert_eq!(stored_key(&[0xc3u8]), "c3");
}
