//! Topology-aware node selection for HPC systems: SLURM node-list and
//! `sinfo` parsing, a topology intermediate representation, per-system
//! topology builders and a placement engine.
pub mod text;
pub mod kv;
pub mod nodelist;
pub mod sinfo;
pub mod ir;
pub mod order;
pub mod topology;
pub mod random;
pub mod placement;
pub mod normalize;
pub mod view;
pub mod cells;
pub mod toml_backend;
pub mod alps;
pub mod stats;
pub mod summary;
pub mod query;
pub mod scontrol;
pub mod leonardo;
pub mod jupiter;
pub mod display;
pub mod schedule;
pub mod cli;
pub mod classes;
