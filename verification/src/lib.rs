pub mod cli;
pub mod discovery;
pub mod model;
pub mod output;
pub mod paths;
pub mod probe;
pub mod protocol;
pub mod static_probe;
pub mod text;
