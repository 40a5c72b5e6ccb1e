pub mod analysis;
