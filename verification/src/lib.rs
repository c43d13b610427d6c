//! Classification of blockchain execution traces into per-transaction action
//! trees, and exact pricing of token pairs over pool subgraphs.

pub mod primitives;
pub mod rational;
pub mod abi;

pub mod actions;
pub mod pattern;
pub mod metadata;
pub mod decoder;
pub mod registry;
pub mod discovery;
pub mod tree;
pub mod classifier;

pub mod pool;
pub mod pricing;
pub mod market;
pub mod graph;
pub mod route;
pub mod scored;
pub mod search;
pub mod dijkstra;
pub mod subgraph;
pub mod shortest;
pub mod reach;
pub mod symmetry;
pub mod scaling;
pub mod deeper;
pub mod idle;

pub mod liquidations;
pub mod orchestrator;
pub mod run;
