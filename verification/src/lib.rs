//! The plain-data core of the zen-build edit and project layer: span
//! surgery over authored `.zen` source, the editability classification,
//! structured writers, part resolution and component scaffolding rules.

pub mod assoc;
pub mod bytes;
pub mod catalog;
pub mod edit;
pub mod editability;
pub mod facts;
pub mod index;
pub mod indexer;
pub mod model;
pub mod names;
pub mod placement;
pub mod parts;
pub mod probe;
pub mod project;
pub mod quote;
pub mod scaffold;
pub mod syntax;
pub mod text;
pub mod wiring;
pub mod writers;
pub mod workspace;
pub mod glyph;
pub mod pins;
pub mod layout_check;
pub mod positions;
pub mod rails;
pub mod layering;
pub mod flow;
pub mod packing;
pub mod netlist;
pub mod source;
pub mod scope;
pub mod tables;
