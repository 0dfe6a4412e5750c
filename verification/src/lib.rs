//! A multi-range selection model for a text editor: directional selection
//! spans (`Range`), normalized multi-cursor selections (`Selection`), and a
//! pattern-driven splitting operation over a character-addressed text view.

pub mod changeset;
pub mod range;
pub mod selection;
pub mod split;
pub mod text;

pub use changeset::Assoc;
pub use changeset::Change;
pub use changeset::ChangeSet;
pub use range::abs_difference;
pub use range::Range;
pub use selection::Selection;
pub use split::split_on_matches;
pub use text::TextView;
