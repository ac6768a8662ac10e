pub mod agreement;
pub mod bag_scan;
pub mod bitfield;
pub mod builder;
pub mod csa;
pub mod example;
pub mod feed;
pub mod journey;
pub mod multicriteria;
pub mod network;
pub mod raptor;
pub mod scan;
pub mod utils;

pub use csa::csa_query;
pub use journey::{Journey, Leg};
pub use network::Network;
pub use raptor::{mc_raptor_query, raptor_query};
