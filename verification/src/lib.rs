//! Guards of an authentication server: a rate limiter for its unauthenticated
//! endpoints and checks of uploaded images.

pub mod arithmetic;
pub mod arithmetic_laws;
pub mod binary64;
pub mod jpg;
pub mod jpg_files;
pub mod jpg_laws;
pub mod ratelimit;
pub mod ratelimit_accounting;
pub mod ratelimit_accuracy;
pub mod ratelimit_laws;
pub mod ratelimit_requests;
pub mod ratelimit_table;
pub mod ratelimit_throughput;
