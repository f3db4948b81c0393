use vstd::prelude::*;

pub mod cross_chain;
pub mod fixed;
pub mod oracle;
pub mod staking;
pub mod webhooks;
pub mod wide;
