use kvs::codec::{decode, encode, Actions, Decoded};
use kvs::error::TError;

fn bytes_of(a: &Actions) -> Vec<u8> {
    encode(a)
}

#[test]
fn encode_put_layout() {
    let b = bytes_of(&Actions::set("k".to_string(), "vv".to_string()));
    let expected: Vec<u8> = vec![0, 1, 0, 0, 0, 0, 0, 0, 0, b'k', 2, 0, 0, 0, 0, 0, 0, 0, b'v', b'v'];
    assert_eq!(b, expected);
}

#[test]
fn encode_rm_and_get_layout() {
    let rm = bytes_of(&Actions::rm("ab".to_string()));
    assert_eq!(rm, vec![2, 2, 0, 0, 0, 0, 0, 0, 0, b'a', b'b']);
    let get = bytes_of(&Actions::get("ab".to_string()));
    assert_eq!(get, vec![1, 2, 0, 0, 0, 0, 0, 0, 0, b'a', b'b']);
}

#[test]
fn decode_round_trip_with_offsets() {
    let mut buf = bytes_of(&Actions::set("key".to_string(), "välue".to_string()));
    let first = buf.len();
    buf.extend(bytes_of(&Actions::rm("key".to_string())));
    match decode(&buf, 0) {
        Ok(Decoded::Record(Actions::Put { key, value }, end)) => {
            assert_eq!(key, "key");
            assert_eq!(value, "välue");
            assert_eq!(end, first);
        }
        _ => panic!("expected a put record"),
    }
    match decode(&buf, first) {
        Ok(Decoded::Record(Actions::Rm { key }, end)) => {
            assert_eq!(key, "key");
            assert_eq!(end, buf.len());
        }
        _ => panic!("expected a remove record"),
    }
    assert!(matches!(decode(&buf, buf.len()), Ok(Decoded::End)));
}

#[test]
fn decode_unknown_tag_is_faulty() {
    let buf: Vec<u8> = vec![7, 0, 0, 0, 0, 0, 0, 0, 0];
    assert!(matches!(decode(&buf, 0), Err(TError::FaultyCommandInLog)));
}

#[test]
fn decode_invalid_text_is_codec_error() {
    let buf: Vec<u8> = vec![2, 1, 0, 0, 0, 0, 0, 0, 0, 0xff];
    assert!(matches!(decode(&buf, 0), Err(TError::Codec)));
}

#[test]
fn decode_cut_record_is_truncated() {
    let full = bytes_of(&Actions::set("k".to_string(), "value".to_string()));
    for cut in 1..full.len() {
        assert!(matches!(decode(&full[..cut], 0), Ok(Decoded::Truncated)));
    }
}

#[test]
fn decode_get_record() {
    let b = bytes_of(&Actions::get("g".to_string()));
    match decode(&b, 0) {
        Ok(Decoded::Record(Actions::Get { key }, end)) => {
            assert_eq!(key, "g");
            assert_eq!(end, b.len());
        }
        _ => panic!("expected a get record"),
    }
}
