//! Converts a community headphone-correction description (a preamp gain
//! line plus parametric-EQ band lines) into a structured DSP
//! configuration document, optionally merged with a named crossfeed
//! preset, and resolves free-text device queries against a name-to-link
//! directory.  All text is handled at the byte level; every public
//! operation carries a contract that pins its result down.
pub mod configcreation;
pub mod crossfeed;
pub mod decimal;
pub mod directory;
pub mod emitter;
pub mod scraping;
pub mod text;
pub mod userinterface;
