pub mod fft;
pub mod parser;
pub mod rgba;
pub mod graphics;
pub mod realtime;
pub mod mic;
pub mod precomp_vis;
