pub mod throttle;
pub mod zlib;
