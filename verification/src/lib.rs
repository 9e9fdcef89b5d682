//! Connection classification and worker-pool bookkeeping for an intercepting proxy.

pub mod avail_list;
pub mod ca;
pub mod pool;
pub mod server;
