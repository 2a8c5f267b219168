//! What is said to services outside this process, before it is sent.

pub mod bridge;
