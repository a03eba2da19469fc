pub mod fuzzing;
pub mod parallelism;
pub mod profiling;
pub mod quickcheck;
pub mod random;
pub mod search;
pub mod seedpool;
pub mod targeting;
pub mod tracing;
