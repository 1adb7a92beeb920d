//! A deterministic binary codec for Starknet contract classes.
//!
//! A contract class is the storable form of a smart contract: its program
//! (bytecode, named constants, builtin names and metadata) together with its
//! entry points and, for the newer class version, its hints.  This crate
//! turns such a class into a flat byte sequence and back, with three
//! guarantees:
//!
//! * determinism: two classes with the same logical content encode to the
//!   same bytes (maps are emitted in sorted key order);
//! * a hard size ceiling on every encoded class;
//! * round-trip safety: decoding an encoding yields the original class.
//!
//! The wire format is fixed-width and platform independent:
//!
//! * integers are big-endian, 8 bytes for lengths, counts and offsets;
//! * a byte run is an 8-byte length followed by the bytes themselves;
//! * a string is the byte run of its UTF-8 encoding;
//! * a list is an 8-byte count followed by the encoded items;
//! * the program is framed: a 16-byte big-endian length, then the program
//!   body, so the outer codec can treat it as one delimited blob.

pub mod codec;
pub mod contract_class_wrapper;
pub mod entrypoint_wrapper;
pub mod errors;
pub mod order;
pub mod program_wrapper;

pub use contract_class_wrapper::ContractClassV0Wrapper;
pub use contract_class_wrapper::ContractClassV1Wrapper;
pub use contract_class_wrapper::ContractClassWrapper;
pub use contract_class_wrapper::EntrypointMapV0Wrapper;
pub use contract_class_wrapper::EntrypointMapV1Wrapper;
pub use contract_class_wrapper::HintWrapper;
pub use contract_class_wrapper::HintsMapWrapper;
pub use contract_class_wrapper::MAX_CONTRACT_BYTE_SIZE;
pub use entrypoint_wrapper::EntryPointTypeWrapper;
pub use entrypoint_wrapper::EntryPointV0Wrapper;
pub use entrypoint_wrapper::EntryPointV1Wrapper;
pub use errors::CodecError;
pub use program_wrapper::ProgramWrapper;
