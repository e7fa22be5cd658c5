use abci_framing::{Decode, DecodeError, Encode};
use bytes::BytesMut;
use prost::Message;

fn framed(body: &[u8]) -> BytesMut {
    let mut out = BytesMut::new();
    Encode::default().encode(body, &mut out);
    out
}

fn next(dec: &mut Decode, buf: &mut BytesMut) -> Result<Option<Vec<u8>>, DecodeError> {
    dec.decode(buf).map(|r| r.map(|b| b.to_vec()))
}

#[test]
fn round_trip_bytes() {
    let mut buf = framed(b"hello");
    assert_eq!(&buf[..], b"\x05hello");
    let mut dec = Decode::default();
    assert_eq!(next(&mut dec, &mut buf), Ok(Some(b"hello".to_vec())));
    assert!(buf.is_empty());
}

#[test]
fn round_trip_protobuf_message() {
    let msg = String::from("echo this");
    let body = msg.encode_to_vec();
    let mut buf = framed(&body);
    let mut dec = Decode::default();
    let got = dec.decode(&mut buf).unwrap().unwrap();
    assert_eq!(String::decode(got).unwrap(), msg);
    assert!(buf.is_empty());
}

#[test]
fn byte_at_a_time_delivery() {
    let body: Vec<u8> = (0u8..=200).collect();
    let wire = framed(&body);
    let mut dec = Decode::default();
    let mut buf = BytesMut::new();
    for (i, b) in wire.iter().enumerate() {
        buf.extend_from_slice(&[*b]);
        let r = next(&mut dec, &mut buf);
        if i + 1 < wire.len() {
            assert_eq!(r, Ok(None), "call {}", i);
        } else {
            assert_eq!(r, Ok(Some(body.clone())));
        }
    }
    assert!(buf.is_empty());
}

#[test]
fn byte_at_a_time_empty_body() {
    let mut dec = Decode::default();
    let mut buf = BytesMut::new();
    buf.extend_from_slice(&[0x00]);
    assert_eq!(next(&mut dec, &mut buf), Ok(Some(vec![])));
    assert!(buf.is_empty());
}

#[test]
fn concatenated_messages() {
    let mut buf = framed(b"first");
    Encode::default().encode(b"second!", &mut buf);
    let mut dec = Decode::default();
    assert_eq!(next(&mut dec, &mut buf), Ok(Some(b"first".to_vec())));
    assert_eq!(next(&mut dec, &mut buf), Ok(Some(b"second!".to_vec())));
    assert!(buf.is_empty());
    assert_eq!(next(&mut dec, &mut buf), Ok(None));
}

#[test]
fn multi_byte_length() {
    let body = vec![7u8; 300];
    let wire = framed(&body);
    assert_eq!(&wire[..2], &[0xAC, 0x02]);
    assert_eq!(wire.len(), 302);

    let mut dec = Decode::default();
    let mut buf = BytesMut::from(&wire[..1]);
    assert_eq!(next(&mut dec, &mut buf), Ok(None));
    assert_eq!(buf.len(), 1);

    buf.extend_from_slice(&wire[1..301]);
    assert_eq!(next(&mut dec, &mut buf), Ok(None));
    assert_eq!(buf.len(), 299);

    buf.extend_from_slice(&wire[301..]);
    assert_eq!(next(&mut dec, &mut buf), Ok(Some(body)));
    assert!(buf.is_empty());
}

#[test]
fn zero_length_body() {
    let mut dec = Decode::default();
    let mut buf = BytesMut::from(&[0x00u8][..]);
    assert_eq!(next(&mut dec, &mut buf), Ok(Some(vec![])));
    assert!(buf.is_empty());
    assert_eq!(&framed(b"")[..], &[0x00]);
}

#[test]
fn malformed_varint() {
    let mut dec = Decode::default();
    let mut buf = BytesMut::from(&[0x80u8; 10][..]);
    assert_eq!(next(&mut dec, &mut buf), Err(DecodeError::MalformedLength));
    assert_eq!(buf.len(), 10);
}

#[test]
fn nine_continuation_bytes_wait() {
    let mut dec = Decode::default();
    let mut buf = BytesMut::from(&[0xFFu8; 9][..]);
    assert_eq!(next(&mut dec, &mut buf), Ok(None));
    assert_eq!(buf.len(), 9);
    buf.extend_from_slice(&[0xFF]);
    assert_eq!(next(&mut dec, &mut buf), Err(DecodeError::MalformedLength));
}

#[test]
fn tenth_byte_overflow_is_malformed() {
    let mut wire = vec![0xFFu8; 9];
    wire.push(0x02);
    let mut dec = Decode::default();
    let mut buf = BytesMut::from(&wire[..]);
    assert_eq!(next(&mut dec, &mut buf), Err(DecodeError::MalformedLength));
}

#[test]
fn largest_length_is_read_and_waits() {
    let mut wire = vec![0xFFu8; 9];
    wire.push(0x01);
    wire.extend_from_slice(b"abc");
    let mut dec = Decode::default();
    let mut buf = BytesMut::from(&wire[..]);
    assert_eq!(next(&mut dec, &mut buf), Ok(None));
    assert_eq!(&buf[..], b"abc");
}

#[test]
fn waiting_call_repeats() {
    let mut dec = Decode::default();
    let mut buf = BytesMut::from(&[0x03u8, b'a'][..]);
    assert_eq!(next(&mut dec, &mut buf), Ok(None));
    assert_eq!(&buf[..], b"a");
    assert_eq!(next(&mut dec, &mut buf), Ok(None));
    assert_eq!(&buf[..], b"a");
    buf.extend_from_slice(b"bcX");
    assert_eq!(next(&mut dec, &mut buf), Ok(Some(b"abc".to_vec())));
    assert_eq!(&buf[..], b"X");
}

#[test]
fn encode_appends_to_existing_output() {
    let mut out = BytesMut::from(&b"old"[..]);
    let mut enc = Encode::default();
    enc.encode(&[1, 2, 3], &mut out);
    assert_eq!(&out[..], &[b'o', b'l', b'd', 3, 1, 2, 3]);
}

#[test]
fn encode_length_128_takes_two_bytes() {
    let wire = framed(&[0u8; 128]);
    assert_eq!(&wire[..2], &[0x80, 0x01]);
    assert_eq!(wire.len(), 130);
}
