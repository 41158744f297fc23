pub mod bytes;
pub mod crc;
pub mod rng;
pub mod npy;
pub mod npz;
pub mod text;
pub mod resolution;
pub mod color;
pub mod bitmap;
pub mod data;
pub mod simplex;
pub mod distribution;
pub mod downscaled;
pub mod themes;
pub mod readback;
pub mod field;
pub mod args;
pub mod vec3_fmt;
pub mod assignment;
