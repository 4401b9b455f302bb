pub mod line_ending;
pub mod rope;
pub mod text;

pub use line_ending::is_line_ending;
pub use rope::{Rope, RopeCharIter, RopeChunkIter, RopeData};
pub use text::{CharIter, Editable, Movement, Text};
