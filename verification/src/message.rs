//! The request that a client sends to a service.

use vstd::prelude::*;

verus! {

/// A call of the service `service_name` with the text `data`, whose length
/// the client reports in `data_len`.
#[derive(Debug)]
pub struct Message {
    pub service_name: String,
    pub data_len: u8,
    pub data: String,
}

} // verus!
