pub mod uint;
pub mod field;
pub mod curve;
pub mod codec;
pub mod groth16;
pub mod ledger;
pub mod encode;
