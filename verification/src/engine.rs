//! Errors of the sync engine.

use vstd::prelude::*;
use vstd::std_specs::convert::FromSpecImpl;
use crate::entry::DagError;
use crate::wire::NetError;

verus! {

/// Errors of engine operations.
#[derive(Debug)]
pub enum EngineError {
    /// A DAG operation failed.
    Dag(DagError),
    /// A network operation failed.
    Net(NetError),
    /// No device with this id.
    DeviceNotFound(String),
    /// The device is not approved.
    DeviceNotApproved(String),
    /// The file is already stored.
    FileAlreadyExists(String),
    /// Access is refused.
    AccessDenied(String),
    /// The access grant has expired.
    AccessExpired,
    /// A blob's content hash differs from the one asked for.
    BlobIntegrity { expected: String, actual: String },
}

impl From<DagError> for EngineError {
    fn from(e: DagError) -> (res: EngineError) {
        EngineError::Dag(e)
    }
}

impl FromSpecImpl<DagError> for EngineError {
    open spec fn obeys_from_spec() -> bool {
        true
    }

    open spec fn from_spec(e: DagError) -> EngineError {
        EngineError::Dag(e)
    }
}

impl From<NetError> for EngineError {
    fn from(e: NetError) -> (res: EngineError) {
        EngineError::Net(e)
    }
}

impl FromSpecImpl<NetError> for EngineError {
    open spec fn obeys_from_spec() -> bool {
        true
    }

    open spec fn from_spec(e: NetError) -> EngineError {
        EngineError::Net(e)
    }
}

} // verus!
