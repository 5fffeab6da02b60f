pub mod variant;
pub mod parser;
pub mod pool;
pub mod fec;
pub mod ordered_map;
pub mod error;
pub mod decoder;
pub mod sigset;
pub mod accumulator;
pub mod listener;

pub use accumulator::AccumulatorConfig;
pub use listener::{ListenerOptions, ShredListener};
pub use variant::{classify_variant, VariantKind};
