pub mod altitude_tile;
