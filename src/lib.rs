//! A bitonic sorting engine that works within execution groups of bounded
//! size, and a counting-sort bucketizer.
//!
//! `plan::plan_sort` lists the stages that sort a sequence whose length is a
//! power of two, `plan::run_stage` applies one of them, and
//! `bucket::bucketize` groups element indices by bucket id. Every function is
//! verified against the model of the network in `network`; `laws` and
//! `sortedness` prove what holds of whole plans.
pub mod pow2;
pub mod network;
pub mod stages;
pub mod sort;
pub mod plan;
pub mod laws;
pub mod sortedness;
pub mod bucket;
pub mod arguments;
pub mod parameters;
