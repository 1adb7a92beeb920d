//! Every decode failure is a typed error; these tests provoke each one.

use starknet_codec::CodecError;
use starknet_codec::ContractClassV1Wrapper;
use starknet_codec::ContractClassWrapper;
use starknet_codec::EntryPointTypeWrapper;
use starknet_codec::EntryPointV0Wrapper;
use starknet_codec::EntrypointMapV0Wrapper;
use starknet_codec::HintsMapWrapper;

fn push_u64_be(out: &mut Vec<u8>, x: u64) {
    out.extend_from_slice(&x.to_be_bytes());
}

#[test]
fn unknown_version_byte_is_rejected() {
    for v in [2u8, 3, 17, 255] {
        let bytes = vec![v, 0, 0, 0];
        assert_eq!(
            ContractClassWrapper::decode(&bytes),
            Err(CodecError::UnknownContractClassVersion)
        );
    }
}

#[test]
fn empty_input_is_truncated() {
    let bytes: Vec<u8> = Vec::new();
    assert_eq!(ContractClassWrapper::decode(&bytes), Err(CodecError::TruncatedInput));
}

#[test]
fn short_frame_header_is_reported() {
    // a valid version byte followed by fewer than the 16 header bytes
    let bytes = vec![0u8, 1, 2, 3];
    assert_eq!(ContractClassWrapper::decode(&bytes), Err(CodecError::FrameTooShort));
}

#[test]
fn short_frame_body_is_reported() {
    let mut bytes = vec![0u8];
    bytes.extend_from_slice(&(100u128).to_be_bytes());
    bytes.extend_from_slice(&[1, 2, 3, 4, 5]);
    assert_eq!(ContractClassWrapper::decode(&bytes), Err(CodecError::FrameBodyTruncated));
}

#[test]
fn malformed_frame_body_is_reported() {
    // a complete frame whose single body byte is no program body
    let mut bytes = vec![0u8];
    bytes.extend_from_slice(&(1u128).to_be_bytes());
    bytes.push(0xFF);
    assert_eq!(ContractClassWrapper::decode(&bytes), Err(CodecError::MalformedProgramBody));
}

#[test]
fn trailing_garbage_inside_frame_is_malformed() {
    // take a valid encoding and widen its frame by one byte
    let class = ContractClassWrapper::V1(ContractClassV1Wrapper::default());
    let good = class.encode();
    let mut body_len_bytes = [0u8; 16];
    body_len_bytes.copy_from_slice(&good[1..17]);
    let body_len = u128::from_be_bytes(body_len_bytes) as usize;
    let mut bad = vec![1u8];
    bad.extend_from_slice(&((body_len + 1) as u128).to_be_bytes());
    bad.extend_from_slice(&good[17..17 + body_len]);
    bad.push(0); // the extra in-frame byte
    bad.extend_from_slice(&good[17 + body_len..]);
    assert_eq!(ContractClassWrapper::decode(&bad), Err(CodecError::MalformedProgramBody));
}

#[test]
fn unrecognized_entry_point_discriminant() {
    let mut bytes: Vec<u8> = Vec::new();
    push_u64_be(&mut bytes, 1); // one pair
    bytes.push(3); // no such kind
    assert_eq!(
        EntrypointMapV0Wrapper::decode_from(&bytes, 0),
        Err(CodecError::UnrecognizedDiscriminant)
    );
}

#[test]
fn truncated_entry_point_is_reported() {
    let bytes = vec![0u8; 10]; // far fewer than selector + offset
    assert_eq!(
        EntryPointV0Wrapper::decode_from(&bytes, 0),
        Err(CodecError::TruncatedInput)
    );
}

#[test]
fn invalid_utf8_hint_key_is_reported() {
    let mut bytes: Vec<u8> = Vec::new();
    push_u64_be(&mut bytes, 1); // one pair
    push_u64_be(&mut bytes, 1); // key length
    bytes.push(0xFF); // not valid UTF-8
    push_u64_be(&mut bytes, 0); // empty record
    assert_eq!(
        HintsMapWrapper::decode_from(&bytes, 0),
        Err(CodecError::InvalidStringEncoding)
    );
}

#[test]
fn every_strict_prefix_fails_to_decode() {
    let ep = EntryPointV0Wrapper::new(vec![8u8; 32], 9);
    let map = EntrypointMapV0Wrapper::new(vec![(EntryPointTypeWrapper::External, vec![ep])]);
    let class = ContractClassWrapper::V0(starknet_codec::ContractClassV0Wrapper {
        program: starknet_codec::ProgramWrapper::new(
            vec![1, 2, 3],
            vec![("c".to_string(), vec![1u8; 32])],
            vec!["output".to_string()],
            "0.11.2".to_string(),
            "__main__".to_string(),
        ),
        entry_points_by_type: map,
    });
    let encoded = class.encode();
    for k in 0..encoded.len() {
        let r = ContractClassWrapper::decode(&encoded[..k]);
        match r {
            Err(CodecError::TruncatedInput)
            | Err(CodecError::FrameTooShort)
            | Err(CodecError::FrameBodyTruncated) => {},
            other => panic!("prefix of length {} gave {:?}", k, other),
        }
    }
}
