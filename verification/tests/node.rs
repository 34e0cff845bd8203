use std::io::{Read, Write};
use onion_routing::mock_stream::MockTcpStream;
use onion_routing::node::generate_node_key;

#[test]
fn mock_stream_read_serves_a_prefix() {
    let mut stream = MockTcpStream { read_data: b"hello".to_vec(), write_data: Vec::new() };
    let mut small = [0u8; 3];
    assert_eq!(stream.read(&mut small).unwrap(), 3);
    assert_eq!(&small, b"hel");
    let mut big = [9u8; 8];
    assert_eq!(stream.read(&mut big).unwrap(), 5);
    assert_eq!(&big, b"hello\x09\x09\x09");
    assert_eq!(stream.read_data, b"hello".to_vec());
}

#[test]
fn mock_stream_write_replaces() {
    let mut stream = MockTcpStream { read_data: Vec::new(), write_data: b"old".to_vec() };
    assert_eq!(stream.write(b"HTTP/1.1 200 OK\r\n").unwrap(), 17);
    assert!(stream.write_data.starts_with(b"HTTP/1.1 200 OK\r\n"));
    assert_eq!(stream.write(b"x").unwrap(), 1);
    assert_eq!(stream.write_data, b"x".to_vec());
    assert!(stream.flush().is_ok());
}

#[test]
fn node_keys_are_fresh() {
    let a = generate_node_key();
    let b = generate_node_key();
    assert_ne!(a, b);
}

#[test]
fn mock_stream_is_a_std_stream() {
    let input_bytes = b"Hello, from the testing stream!";
    let mut contents = vec![0u8; 1024];
    contents[..input_bytes.len()].clone_from_slice(input_bytes);
    let mut stream = MockTcpStream { read_data: contents, write_data: Vec::new() };
    let mut buf = [0u8; 1024];
    stream.read_exact(&mut buf).unwrap();
    assert_eq!(&buf[..input_bytes.len()], input_bytes);
    stream.write_all(b"HTTP/1.1 200 OK\r\n").unwrap();
    Write::flush(&mut stream).unwrap();
    assert!(stream.write_data.starts_with(b"HTTP/1.1 200 OK\r\n"));
}
