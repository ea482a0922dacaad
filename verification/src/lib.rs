pub mod batcher;
pub mod calendar;
pub mod cli;
pub mod command;
pub mod dataloader;
pub mod dataset;
pub mod history;
pub mod label;
pub mod link;
pub mod metric;
pub mod number;
pub mod portfolio;
pub mod random;
pub mod reals;
pub mod report;
pub mod store;
pub mod text;
pub mod training;
