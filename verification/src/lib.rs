pub mod colour;
pub mod compaction;
pub mod compute;
pub mod histogram;
pub mod double_buffer;
pub mod frame;
pub mod pixel;
pub mod screen;
