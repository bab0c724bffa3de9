mod analysis;
mod attr;
mod btsg;
mod bytes;
mod convert;
mod node;
mod path;
mod section;
mod edge;
mod error;
mod graph;
mod group;
mod hashing;
mod header;

pub use attr::Attribute;
pub use analysis::GraphTopology;
pub use btsg::{from_btsg, to_btsg, BTSGCompressor, BTSGDecompressor, BTSGError, Block, StringDictionary};
pub use convert::{to_fa, to_gtf};
pub use error::TsgError;
pub use hashing::to_hash_identifier;
pub use edge::{EdgeData, StructuralVariant};
pub use group::{Group, OrientedElement, Orientation};
pub use graph::{InterGraphLink, TSGraph};
pub use header::Header;
pub use section::{EdgeSlot, GraphSection};
pub use path::{PathAnalysis, TSGPath};
pub use node::{Exons, Interval, NodeData, ReadData, ReadIdentity, Strand};
