#![allow(unused_imports)]

pub mod batches;
pub mod cluster;
pub mod config;
pub mod counting;
pub mod data;
pub mod decimal;
pub mod equalize;
pub mod features;
pub mod grouping;
pub mod hdbscan;
pub mod history;
pub mod initial_stability;
pub mod interval;
pub mod labels;
pub mod linkage;
pub mod logistic;
pub mod metrics;
pub mod neural;
pub mod numpy_rng;
pub mod optimal;
pub mod ordkey;
pub mod presets;
pub mod recurrence;
pub mod resume;
pub mod run;
pub mod selection;
pub mod sorting;
pub mod split;
pub mod summary;
pub mod sweep;
pub mod text;
pub mod train;
pub mod twister;
