//! A key-pool scheduler for dispatching requests to a rate-limited external
//! API through a pool of interchangeable credentials, together with a
//! TTL/LRU response cache, a rotating request logger, and a retrying
//! dispatcher over an abstract transport.
//!
//! All timestamps are seconds. The current time is always passed in by the
//! caller, so schedules can be exercised with a controllable clock.

pub mod cache;
pub mod dispatch;
pub mod logger;
pub mod output;
pub mod pool;
