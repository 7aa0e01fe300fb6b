//! The decisions behind `kicad2print`: reading and editing KiCad files, choosing the
//! settings of a print, checking a printable mesh, and writing the build guide.
//!
//! A text is modelled as the sequence of its characters. Contracts speak of that
//! sequence, so a position in a text counts characters unless a contract says
//! otherwise.

pub mod anchors;
pub mod areas;
pub mod asking;
pub mod base64_text;
pub mod board;
pub mod bodies;
pub mod bores;
pub mod boring;
pub mod bounding;
pub mod bridges;
pub mod caps;
pub mod choices;
pub mod choosing;
pub mod cleanup;
pub mod clearance;
pub mod config;
pub mod connect;
pub mod cutting;
pub mod decimal;
pub mod distance;
pub mod drawing;
pub mod edges;
pub mod edits;
pub mod export;
pub mod export_text;
pub mod fields;
pub mod finding;
pub mod footprints;
pub mod gaps;
pub mod graph;
pub mod graphics;
pub mod guide;
pub mod guide_text;
pub mod guiding;
pub mod health;
pub mod insert;
pub mod json;
pub mod layout;
pub mod listing;
pub mod lookup;
pub mod measuring;
pub mod mesh;
pub mod models;
pub mod mouths;
pub mod moving;
pub mod netlist;
pub mod outline;
pub mod pads;
pub mod params;
pub mod parting;
pub mod parts;
pub mod pcb;
pub mod pins;
pub mod placing;
pub mod power;
pub mod probe;
pub mod probing;
pub mod profile;
pub mod railing;
pub mod readback;
pub mod reading;
pub mod recognition;
pub mod relisting;
pub mod removal;
pub mod repair;
pub mod replace;
pub mod retired;
pub mod rings;
pub mod routing;
pub mod scaling;
pub mod schematic;
pub mod scripts;
pub mod seams;
pub mod sexpr;
pub mod shells;
pub mod slots;
pub mod solid;
pub mod spots;
pub mod spotting;
pub mod stencil;
pub mod steps;
pub mod strings;
pub mod sync;
pub mod syncing;
pub mod tables;
pub mod text;
pub mod toml_text;
pub mod tools;
pub mod traces;
pub mod tree;
pub mod units;
pub mod ways;
pub mod wide;
pub mod winding;
pub mod wires;
pub mod wiring;
pub mod writing;
