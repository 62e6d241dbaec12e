pub mod identity;
pub mod url;
pub mod fragment;
pub mod cache;
pub mod world;
pub mod batch;
pub mod pipeline;
