pub mod delete;
pub mod error;
pub mod fix;
pub mod migrate;
pub mod parse;
pub mod report;
pub mod reshard;
pub mod consistency;
pub mod create;
pub mod topology;
pub mod util;
