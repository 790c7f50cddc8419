//! Local-network diagnostics core: usable-host enumeration over an address
//! block, a multi-pass address-resolution scan driven as a state machine,
//! order-independent aggregation of the observations, reporting of the
//! addresses that resolved to more than one hardware address, and the
//! output structure of the echo-probe sweep.

pub mod addr;
pub mod aggregate;
pub mod report;
pub mod scan;
pub mod sweep;
