//! A prover for halo2 circuits that leaves the heavy work to a device.
//!
//! The library decides and computes; it neither touches the device nor the transcript. A proof is
//! started with [`create_proof_from_advices`] and driven, action by action, with
//! [`prover::Prover::step`].
use vstd::prelude::*;

pub mod algebra;
pub mod circuit;
pub mod commitments;
pub mod device;
pub mod expression;
pub mod field;
pub mod fp;
pub mod grand_product;
pub mod lookup;
pub mod lookup_columns;
pub mod lookup_product;
pub mod opening;
mod parallel;
pub mod permutation;
pub mod products;
pub mod protocol;
pub mod prover;
pub mod replay;

pub use circuit::prepare_advice_buffer;
pub use expression::{evaluate_expr, evaluate_exprs};
pub use prover::create_proof_from_advices;

verus! {

/// Why a proof could not be made.
#[derive(Debug)]
pub enum Error {
    DeviceError(device::Error),
}

impl vstd::std_specs::convert::FromSpecImpl<device::Error> for Error {
    open spec fn obeys_from_spec() -> bool {
        true
    }

    open spec fn from_spec(e: device::Error) -> Error {
        Error::DeviceError(e)
    }
}

impl From<device::Error> for Error {
    fn from(e: device::Error) -> (r: Error) {
        Error::DeviceError(e)
    }
}

} // verus!
