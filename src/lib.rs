//! A packing engine for air-cargo unit load devices: a constructive placer
//! driven by a biased random-key genetic search, a compactor, and a
//! loading-order graph, with their contracts proved by Verus.
pub mod geometry;
pub mod model;
pub mod ordering;
pub mod placer;
pub mod anchors;
pub mod passes;
pub mod compactor;
pub mod random;
pub mod chromosome;
pub mod genetic;
pub mod loading;
pub mod solution;
pub mod cushion;
