pub mod codec;
