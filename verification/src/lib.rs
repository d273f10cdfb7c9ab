pub mod app;
pub mod classifier;
pub mod clock;
pub mod decimal;
pub mod delta;
pub mod entropy;
pub mod history;
pub mod paths;
pub mod scanner;
pub mod types;
