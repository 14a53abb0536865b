pub mod model;
pub mod text;
pub mod read;
pub mod process;
pub mod sampler;
pub mod icons;
pub mod table;
