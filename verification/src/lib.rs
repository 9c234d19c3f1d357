//! Combinatorial, lattice and text-format logic behind a small
//! simulated-annealing modeller: lexicographic enumeration of the index
//! subsets of perturbation series, the periodic lattice geometry of Ising
//! models, the bit encodings of spin configurations, and the readers of the
//! graph and Ising model formats.
pub mod adjacency;
pub mod config;
pub mod eigentools;
pub mod graph_file;
pub mod ising;
pub mod ising_file;
pub mod perturbation;
pub mod text;

pub use adjacency::Adjacency;
pub use config::{config_bytes, config_spins, config_to_u64, lower_neighbours};
pub use eigentools::OneNormalize;
pub use graph_file::{parse_graph_file, GraphFile, GraphFileError, GraphWeights, InitialState};
pub use ising::Lattice;
pub use ising_file::{parse_ising_file, IsingFile, IsingFileError};
pub use perturbation::{perturbation_exponents, Index};
