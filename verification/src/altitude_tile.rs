pub mod error;
pub mod nishioka_nagatsu_2015;
pub mod raster;
