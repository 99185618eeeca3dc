pub mod analysis;
pub mod archive;
pub mod assets;
pub mod bundle;
pub mod diagnostics;
pub mod estimate;
pub mod export;
pub mod graphs;
pub mod history;
pub mod jobs;
pub mod import;
pub mod paths;
pub mod project;
pub mod server;
pub mod store;
pub mod style;
pub mod suggest;
pub mod tabular;
pub mod text;
pub mod vpl;
