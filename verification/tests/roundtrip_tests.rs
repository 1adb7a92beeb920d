//! Round-trip, determinism and scenario tests for the contract-class codec.

use starknet_codec::CodecError;
use starknet_codec::ContractClassV0Wrapper;
use starknet_codec::ContractClassV1Wrapper;
use starknet_codec::ContractClassWrapper;
use starknet_codec::EntryPointTypeWrapper;
use starknet_codec::EntryPointV0Wrapper;
use starknet_codec::EntryPointV1Wrapper;
use starknet_codec::EntrypointMapV0Wrapper;
use starknet_codec::EntrypointMapV1Wrapper;
use starknet_codec::HintWrapper;
use starknet_codec::HintsMapWrapper;
use starknet_codec::ProgramWrapper;

fn sample_program() -> ProgramWrapper {
    ProgramWrapper::new(
        vec![1, 2, 3, 4],
        vec![
            ("PRIME".to_string(), vec![7u8; 32]),
            ("ALPHA".to_string(), vec![9u8; 32]),
        ],
        vec!["pedersen".to_string(), "range_check".to_string()],
        "0.11.2".to_string(),
        "__main__".to_string(),
    )
}

fn sample_v1_class() -> ContractClassWrapper {
    let ep = EntryPointV1Wrapper::new(
        vec![5u8; 32],
        42,
        vec!["range_check".to_string(), "pedersen".to_string()],
    );
    let map = EntrypointMapV1Wrapper::new(vec![(EntryPointTypeWrapper::External, vec![ep])]);
    let hints = HintsMapWrapper::new(vec![
        ("h1".to_string(), HintWrapper { code: vec![1, 2, 3] }),
        ("h0".to_string(), HintWrapper { code: vec![9] }),
    ]);
    ContractClassWrapper::V1(ContractClassV1Wrapper {
        program: sample_program(),
        entry_points_by_type: map,
        hints,
    })
}

#[test]
fn round_trip_v0_empty_maps() {
    let class = ContractClassWrapper::V0(ContractClassV0Wrapper::default());
    let encoded = class.encode();
    let decoded = ContractClassWrapper::decode(&encoded).unwrap();
    assert_eq!(class, decoded);
}

#[test]
fn round_trip_v1_empty_maps() {
    let class = ContractClassWrapper::V1(ContractClassV1Wrapper::default());
    let encoded = class.encode();
    let decoded = ContractClassWrapper::decode(&encoded).unwrap();
    assert_eq!(class, decoded);
}

#[test]
fn round_trip_v0_with_entry_points() {
    let ep_a = EntryPointV0Wrapper::new(vec![0u8; 32], 0);
    let ep_b = EntryPointV0Wrapper::new(vec![1u8; 32], 77);
    let map = EntrypointMapV0Wrapper::new(vec![
        (EntryPointTypeWrapper::L1Handler, vec![ep_a, ep_b]),
        (EntryPointTypeWrapper::Constructor, vec![]),
    ]);
    let class = ContractClassWrapper::V0(ContractClassV0Wrapper {
        program: sample_program(),
        entry_points_by_type: map,
    });
    let encoded = class.encode();
    let decoded = ContractClassWrapper::decode(&encoded).unwrap();
    assert_eq!(class, decoded);
}

#[test]
fn round_trip_v1_full() {
    let class = sample_v1_class();
    let encoded = class.encode();
    let decoded = ContractClassWrapper::decode(&encoded).unwrap();
    assert_eq!(class, decoded);
}

#[test]
fn decode_tolerates_trailing_bytes() {
    let class = sample_v1_class();
    let mut encoded = class.encode();
    encoded.extend_from_slice(&[0xAA, 0xBB, 0xCC]);
    let decoded = ContractClassWrapper::decode(&encoded).unwrap();
    assert_eq!(class, decoded);
}

#[test]
fn encoding_is_deterministic_across_insertion_orders() {
    let hints_one = HintsMapWrapper::new(vec![
        ("b".to_string(), HintWrapper { code: vec![2] }),
        ("a".to_string(), HintWrapper { code: vec![1] }),
    ]);
    let hints_two = HintsMapWrapper::new(vec![
        ("a".to_string(), HintWrapper { code: vec![1] }),
        ("b".to_string(), HintWrapper { code: vec![2] }),
    ]);
    assert_eq!(hints_one, hints_two);

    let ep = |n: u8| EntryPointV1Wrapper::new(vec![n; 32], n as u64, vec![]);
    let map_one = EntrypointMapV1Wrapper::new(vec![
        (EntryPointTypeWrapper::L1Handler, vec![ep(3)]),
        (EntryPointTypeWrapper::Constructor, vec![ep(1)]),
        (EntryPointTypeWrapper::External, vec![ep(2)]),
    ]);
    let map_two = EntrypointMapV1Wrapper::new(vec![
        (EntryPointTypeWrapper::External, vec![ep(2)]),
        (EntryPointTypeWrapper::Constructor, vec![ep(1)]),
        (EntryPointTypeWrapper::L1Handler, vec![ep(3)]),
    ]);
    let class_one = ContractClassWrapper::V1(ContractClassV1Wrapper {
        program: sample_program(),
        entry_points_by_type: map_one,
        hints: hints_one,
    });
    let class_two = ContractClassWrapper::V1(ContractClassV1Wrapper {
        program: sample_program(),
        entry_points_by_type: map_two,
        hints: hints_two,
    });
    assert_eq!(class_one.encode(), class_two.encode());
}

#[test]
fn constants_are_sorted_regardless_of_order() {
    let prog_one = ProgramWrapper::new(
        vec![],
        vec![
            ("z".to_string(), vec![1u8; 32]),
            ("a".to_string(), vec![2u8; 32]),
        ],
        vec![],
        "0.11.2".to_string(),
        "__main__".to_string(),
    );
    let prog_two = ProgramWrapper::new(
        vec![],
        vec![
            ("a".to_string(), vec![2u8; 32]),
            ("z".to_string(), vec![1u8; 32]),
        ],
        vec![],
        "0.11.2".to_string(),
        "__main__".to_string(),
    );
    assert_eq!(prog_one, prog_two);
    let keys: Vec<String> = prog_one.constants().iter().map(|p| p.0.clone()).collect();
    assert_eq!(keys, vec!["a".to_string(), "z".to_string()]);
}

#[test]
fn repeated_key_keeps_later_value() {
    let hints = HintsMapWrapper::new(vec![
        ("h".to_string(), HintWrapper { code: vec![1] }),
        ("h".to_string(), HintWrapper { code: vec![2] }),
    ]);
    assert_eq!(hints.entries().len(), 1);
    assert_eq!(hints.entries()[0].0, "h".to_string());
    assert_eq!(hints.entries()[0].1.code, vec![2]);
}

#[test]
fn size_ceiling_is_enforced() {
    let big_program = ProgramWrapper::new(
        vec![0u8; 21 * 1024 * 1024],
        vec![],
        vec![],
        "0.11.2".to_string(),
        "__main__".to_string(),
    );
    let class = ContractClassWrapper::V0(ContractClassV0Wrapper {
        program: big_program,
        entry_points_by_type: EntrypointMapV0Wrapper::default(),
    });
    assert_eq!(class.encode_checked(), Err(CodecError::ContractTooLarge));

    let small = ContractClassWrapper::V0(ContractClassV0Wrapper::default());
    let bytes = small.encode_checked().unwrap();
    assert_eq!(bytes, small.encode());
}

#[test]
fn ceiling_constant_is_exposed() {
    assert_eq!(ContractClassWrapper::max_encoded_len(), 20_971_520);
    assert_eq!(starknet_codec::MAX_CONTRACT_BYTE_SIZE, 20_971_520);
}

#[test]
fn encoded_len_matches_encoding() {
    let class = sample_v1_class();
    assert_eq!(class.encoded_len(), class.encode().len());
}

#[test]
fn scenario_v0_external_entry_point() {
    // an older-form class with one external entry point (selector of 32
    // zero bytes, offset 0) and an empty program
    let ep = EntryPointV0Wrapper::new(vec![0u8; 32], 0);
    let map = EntrypointMapV0Wrapper::new(vec![(EntryPointTypeWrapper::External, vec![ep])]);
    let class = ContractClassWrapper::V0(ContractClassV0Wrapper {
        program: ProgramWrapper::default(),
        entry_points_by_type: map,
    });
    let encoded = class.encode();
    let decoded = ContractClassWrapper::decode(&encoded).unwrap();
    assert_eq!(class, decoded);
    match decoded {
        ContractClassWrapper::V0(c) => {
            assert_eq!(c.program.compiler_version, "0.11.2".to_string());
            assert_eq!(c.program.main_scope, "__main__".to_string());
            assert_eq!(c.program.shared_program_data.len(), 0);
            assert!(c.program.constants().is_empty());
            let entries = c.entry_points_by_type.entries();
            assert_eq!(entries.len(), 1);
            assert_eq!(entries[0].0, EntryPointTypeWrapper::External);
            assert_eq!(entries[0].1.len(), 1);
            assert_eq!(entries[0].1[0].selector(), &vec![0u8; 32]);
            assert_eq!(entries[0].1[0].offset(), 0);
        },
        ContractClassWrapper::V1(_) => panic!("wrong version"),
    }
}

#[test]
fn scenario_v1_hint_and_builtin() {
    // a newer-form class with a single hint keyed "h0" and one entry
    // point requiring the builtins "range_check" then "pedersen"
    let ep = EntryPointV1Wrapper::new(
        vec![3u8; 32],
        12,
        vec!["range_check".to_string(), "pedersen".to_string()],
    );
    let map = EntrypointMapV1Wrapper::new(vec![(EntryPointTypeWrapper::External, vec![ep])]);
    let hints = HintsMapWrapper::new(vec![(
        "h0".to_string(),
        HintWrapper { code: vec![4, 5, 6] },
    )]);
    let class = ContractClassWrapper::V1(ContractClassV1Wrapper {
        program: ProgramWrapper::default(),
        entry_points_by_type: map,
        hints,
    });
    let encoded = class.encode();
    let decoded = ContractClassWrapper::decode(&encoded).unwrap();
    assert_eq!(class, decoded);
    match decoded {
        ContractClassWrapper::V1(c) => {
            assert_eq!(c.hints.entries().len(), 1);
            assert_eq!(c.hints.entries()[0].0, "h0".to_string());
            assert_eq!(c.hints.entries()[0].1.code, vec![4, 5, 6]);
            let entries = c.entry_points_by_type.entries();
            assert_eq!(
                entries[0].1[0].builtins(),
                &vec!["range_check".to_string(), "pedersen".to_string()]
            );
        },
        ContractClassWrapper::V0(_) => panic!("wrong version"),
    }
}

#[test]
fn entry_point_v0_exact_bytes() {
    let ep = EntryPointV0Wrapper::new(vec![0u8; 32], 5);
    let mut bytes: Vec<u8> = Vec::new();
    ep.encode_to(&mut bytes);
    let mut expected = vec![0u8; 32];
    expected.extend_from_slice(&[0, 0, 0, 0, 0, 0, 0, 5]);
    assert_eq!(bytes, expected);
}

#[test]
fn entry_point_type_exact_bytes_and_default() {
    assert_eq!(EntryPointTypeWrapper::default(), EntryPointTypeWrapper::External);
    let mut bytes: Vec<u8> = Vec::new();
    EntryPointTypeWrapper::Constructor.encode_to(&mut bytes);
    EntryPointTypeWrapper::External.encode_to(&mut bytes);
    EntryPointTypeWrapper::L1Handler.encode_to(&mut bytes);
    assert_eq!(bytes, vec![0, 1, 2]);
}

#[test]
fn hints_map_exact_bytes() {
    let hints = HintsMapWrapper::new(vec![(
        "h0".to_string(),
        HintWrapper { code: vec![7] },
    )]);
    let mut bytes: Vec<u8> = Vec::new();
    hints.encode_to(&mut bytes);
    let mut expected: Vec<u8> = Vec::new();
    expected.extend_from_slice(&[0, 0, 0, 0, 0, 0, 0, 1]); // one pair
    expected.extend_from_slice(&[0, 0, 0, 0, 0, 0, 0, 2]); // key length
    expected.extend_from_slice(b"h0");
    expected.extend_from_slice(&[0, 0, 0, 0, 0, 0, 0, 1]); // record length
    expected.push(7);
    assert_eq!(bytes, expected);
}

#[test]
fn class_encoding_starts_with_version_and_frame() {
    let class = ContractClassWrapper::V0(ContractClassV0Wrapper::default());
    let encoded = class.encode();
    assert_eq!(encoded[0], 0);
    // the next 16 bytes carry the program body length, big-endian
    let mut n: u128 = 0;
    for b in &encoded[1..17] {
        n = (n << 8) | (*b as u128);
    }
    let body_len = n as usize;
    // version byte + frame header + body + empty entry-point map count
    assert_eq!(encoded.len(), 1 + 16 + body_len + 8);
}
