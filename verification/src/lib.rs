//! Search tools for binary orthogonal arrays: enumeration of column
//! subsets, defect scores, balance-preserving operators, one tournament
//! generation, and a hill climb guided by the Walsh spectrum.

pub mod alphabet;
pub mod balance;
pub mod binary_strings;
pub mod design;
pub mod driver;
pub mod epoch;
pub mod features;
pub mod fitness;
pub mod genetic_operators;
pub mod hill_climb;
pub mod incremental;
pub mod incremental_ga;
pub mod oarray;
pub mod orthogonality;
pub mod parse;
pub mod random;
pub mod score;
pub mod spectrum;
pub mod t_combinations;
pub mod treeformula;
pub mod walsh;
pub mod wtform;

pub use fitness::FitnessFunction;
pub use oarray::OArray;
