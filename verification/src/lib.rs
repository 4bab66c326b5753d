#![verifier::loop_isolation(false)]

pub mod codec;
pub mod compress;
pub mod countries;
pub mod numbers;
pub mod query;
pub mod search;
pub mod shapes;
pub mod store;
