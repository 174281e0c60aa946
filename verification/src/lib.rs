//! A deterministic bit generator for deriving cryptographic round constants:
//! an 80-bit linear-feedback shift register run in self-shrinking mode, with
//! rejection sampling of the derived bit stream into field elements.

pub mod field;
pub mod grain;
pub mod stream;

pub use field::Field;
pub use field::FieldElement;
pub use grain::FieldType;
pub use grain::Grain;
pub use grain::SboxType;
