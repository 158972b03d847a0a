//! Variable length subnet mask (VLSM) allocation over IPv4.
pub mod csv_import;
pub mod ipv4;
pub mod subnet;
pub mod subnets_calculator;
