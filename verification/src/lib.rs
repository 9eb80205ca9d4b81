//! Reading and writing of fixed-column molecular-structure text: a title
//! line, an atom count, one record per atom, and a final box-size line.

pub mod error;
pub mod fixed;
pub mod geometry;
pub mod laws;
pub mod num;
pub mod parser;
pub mod text;
pub mod types;

pub use error::Error;
pub use error::ParseError;

pub use geometry::Vector3d;
pub use types::Atom;
pub use types::Residue;
pub use types::Structure;
