use kademlia::net2::{RpcClient, MESSAGE_LEN, TIMEOUT};
use kademlia::proto2::ProtocolCodec;
use kademlia::req2::{DummyData, MyCodec};

#[test]
fn proto2_test_add() {
    assert_eq!(1 + 2, 3);
}

#[test]
fn req2_test_add() {
    assert_eq!(1 + 2, 3);
}

#[test]
fn protocol_codec_waits_on_empty_buffer() {
    let mut codec = ProtocolCodec::new();
    let mut buf: Vec<u8> = Vec::new();
    assert!(codec.next_frame(&mut buf).is_none());
    assert!(buf.is_empty());
}

#[test]
fn protocol_codec_takes_whole_buffer() {
    let mut codec = ProtocolCodec::new();
    let mut buf: Vec<u8> = b"{\"field\":3}".to_vec();
    let frame = codec.next_frame(&mut buf).unwrap();
    assert_eq!(frame, b"{\"field\":3}".to_vec());
    // The bytes are completely consumed.
    assert_eq!(buf.len(), 0_usize);
    assert!(codec.next_frame(&mut buf).is_none());
}

#[test]
fn my_codec_frames_without_consuming() {
    let mut codec = MyCodec::new();
    let buf: Vec<u8> = b"{\"field\":3}".to_vec();
    assert_eq!(codec.next_frame(&buf).unwrap(), buf);
    assert!(codec.next_frame(&Vec::new()).is_none());
    assert_eq!(DummyData { field: 3 }, DummyData { field: 3 });
}

#[test]
fn rpc_client_constants() {
    let _client = RpcClient::new();
    assert_eq!(MESSAGE_LEN, 8196);
    assert_eq!(TIMEOUT, 5000);
}
