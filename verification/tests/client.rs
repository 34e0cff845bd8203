use onion_routing::authority::NodeKey;
use onion_routing::directory::{parse_array, parse_node, try_parse_array, try_parse_node};
use onion_routing::keys::{format_keys, key_from_string};
use onion_routing::onion::{
    decrypt_message, encrypt_message, generate_ciphers, is_peelable, onion_fits,
    try_decrypt_message, OnionError,
};

#[test]
fn parse_array_test() {
    assert_eq!(
        parse_array("\\node: 1, key: 1\\".to_string()),
        (vec!["1".to_string()], vec!["1".to_string()])
    )
}

#[test]
fn parse_node_test() {
    assert_eq!(parse_node("node: 1, key: 1"), ("1".to_string(), "1".to_string()))
}

#[test]
fn format_keys_test() {
    let keys_unformatted = [
        "Writing tests is slow and boring".to_string(),
        "Writing tests is slow and boring".to_string(),
        "Writing tests is slow and boring".to_string(),
    ];
    let keys_formatted = format_keys(keys_unformatted.to_vec());
    let keys = [
        b"Writing tests is slow and boring".to_owned(),
        b"Writing tests is slow and boring".to_owned(),
        b"Writing tests is slow and boring".to_owned(),
    ]
    .to_vec();

    assert_eq!(keys_formatted, keys)
}

#[test]
fn key_from_string_test() {
    let key_string = "Writing tests is slow and boring";
    let key = b"Writing tests is slow and boring";
    let key_from_string = key_from_string(key_string.to_string());

    assert_eq!(key.to_owned(), key_from_string)
}

#[test]
fn parse_array_reads_every_entry_in_order() {
    let answer = "\\node: 127.0.0.1:3001, key: aaa\\\\node: 127.0.0.1:3002, key: bbb\\\\node: 127.0.0.1:3003, key: ccc\\";
    let (nodes, keys) = parse_array(answer.to_string());
    assert_eq!(nodes, vec!["127.0.0.1:3001", "127.0.0.1:3002", "127.0.0.1:3003"]);
    assert_eq!(keys, vec!["aaa", "bbb", "ccc"]);
}

#[test]
fn parse_array_skips_pieces_without_node() {
    let (nodes, keys) = parse_array("garbage\\\\HTTP/1.1 200 OK\\node: a, key: b".to_string());
    assert_eq!(nodes, vec!["a".to_string()]);
    assert_eq!(keys, vec!["b".to_string()]);
    let (nodes, keys) = parse_array(String::new());
    assert!(nodes.is_empty() && keys.is_empty());
}

#[test]
fn parse_node_keeps_only_the_second_field() {
    assert_eq!(
        parse_node("node: x, key: y, extra"),
        ("x".to_string(), "y".to_string())
    );
    assert_eq!(parse_node("node: , key: "), (String::new(), String::new()));
    assert_eq!(
        parse_node("node: ü, key: ø"),
        ("ü".to_string(), "ø".to_string())
    );
}

#[test]
fn key_from_string_pads_with_zeros() {
    let key = key_from_string("abc".to_string());
    assert_eq!(&key[..3], b"abc");
    assert!(key[3..].iter().all(|b| *b == 0));
    let empty = key_from_string(String::new());
    assert_eq!(empty, [0u8; 32]);
    let multi = key_from_string("é".to_string());
    assert_eq!(&multi[..2], &[0xc3u8, 0xa9u8]);
}

#[test]
fn generate_ciphers_keeps_keys_in_order() {
    let ciphers = generate_ciphers(vec![[1u8; 32], [2u8; 32]]);
    assert_eq!(ciphers.len(), 2);
    assert_eq!(ciphers[0].key, [1u8; 32]);
    assert_eq!(ciphers[1].key, [2u8; 32]);
}

fn path_keys() -> Vec<[u8; 32]> {
    format_keys(vec![
        "first node key, thirty-two bytes".to_string(),
        "second node key".to_string(),
        "third node key".to_string(),
    ])
}

fn path_nodes() -> Vec<String> {
    vec![
        "127.0.0.1:3001".to_string(),
        "127.0.0.1:3002".to_string(),
        "127.0.0.1:3003".to_string(),
    ]
}

#[test]
fn encrypt_then_decrypt_gives_the_marked_message() {
    let mut msg = "hello".to_string();
    let onion = encrypt_message(&mut msg, path_keys(), path_nodes()).unwrap();
    assert_eq!(msg, "hello\\127.0.0.1:3003\\");
    // three tags and two inner hop markers around the message
    assert_eq!(onion.len(), msg.len() + 3 * 16 + 2 * 16);
    assert!(!onion.windows(5).any(|w| w == b"hello"));
    let plain = decrypt_message(onion.clone(), path_keys()).unwrap();
    assert_eq!(plain, msg.as_bytes());
    assert!(is_peelable(&onion, &path_keys()));
    assert_eq!(try_decrypt_message(onion, path_keys()), Some(Ok(msg.into_bytes())));
}

#[test]
fn decrypt_with_wrong_keys_is_refused() {
    let mut msg = "secret".to_string();
    let onion = encrypt_message(&mut msg, path_keys(), path_nodes()).unwrap();
    let wrong = vec![[9u8; 32], [9u8; 32], [9u8; 32]];
    assert!(!is_peelable(&onion, &wrong));
    assert_eq!(try_decrypt_message(onion.clone(), wrong), None);
    assert_eq!(try_decrypt_message(onion, vec![[0u8; 32]]), None);
}

#[test]
fn decrypt_with_wrong_innermost_key_fails() {
    let mut msg = "secret".to_string();
    let onion = encrypt_message(&mut msg, path_keys(), path_nodes()).unwrap();
    let mut keys = path_keys();
    keys[2] = [7u8; 32];
    assert_eq!(decrypt_message(onion, keys), Err(OnionError));
}

#[test]
fn unreadable_entries_are_reported() {
    assert_eq!(try_parse_node("node: 1 key: 1"), None);
    assert_eq!(try_parse_node("node:, key: 1"), None);
    assert_eq!(try_parse_node("node: 1, ke"), None);
    assert_eq!(try_parse_node("node:ü, key: 1"), None);
    assert_eq!(try_parse_node("nodeü, key: 1"), Some((String::new(), "1".to_string())));
    assert_eq!(
        try_parse_node("node: 1, key: 2"),
        Some(("1".to_string(), "2".to_string()))
    );
    assert_eq!(try_parse_array("\\node: broken\\"), None);
    assert_eq!(try_parse_array("\\no entries here\\"), Some((vec![], vec![])));
    assert_eq!(
        try_parse_array("\\node: 1, key: 1\\"),
        Some((vec!["1".to_string()], vec!["1".to_string()]))
    );
}

#[test]
fn onion_of_a_short_message_has_the_stated_length() {
    let mut p = "hi".to_string();
    let keys = vec![[1u8; 32], [2u8; 32], [3u8; 32]];
    let nodes = vec!["a".to_string(), "b".to_string(), "c".to_string()];
    assert!(onion_fits(&p, &nodes));
    let r = encrypt_message(&mut p, keys, nodes);
    assert_eq!(p, "hi\\c\\");
    assert_eq!(r.unwrap().len(), 59);
}

#[test]
fn unwrapping_removes_eighty_bytes() {
    let mut msg = "length check".to_string();
    let onion = encrypt_message(&mut msg, path_keys(), path_nodes()).unwrap();
    let plain = decrypt_message(onion.clone(), path_keys()).unwrap();
    assert_eq!(plain.len() + 80, onion.len());
}

#[test]
fn parse_node_reads_back_a_node_text() {
    let n = NodeKey { node: "a\\b".to_string(), key: "k\\y".to_string() };
    assert_eq!(parse_node(&n.to_string()), ("a\\b".to_string(), "k\\y".to_string()));
}

#[test]
fn joined_answers_read_as_both() {
    let a = "\\node: 1, key: k1\\".to_string();
    let b = "node: 2, key: k2\\\\node: 3, key: k3".to_string();
    let joined = format!("{}\\{}", a, b);
    let (na, ka) = parse_array(a);
    let (nb, kb) = parse_array(b);
    let (nj, kj) = parse_array(joined);
    assert_eq!(nj, [na, nb].concat());
    assert_eq!(kj, [ka, kb].concat());
}
