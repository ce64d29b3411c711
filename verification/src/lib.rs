/// Natural-order comparison of strings, with digit runs of any length
/// compared numerically.
pub mod ace_sort;
/// Line accumulation: an unbounded store and a fixed-size reservoir sampler.
pub mod store;
