//! Line detection, recognition and decoding for screen text.

pub mod annotation;
pub mod bbox;
pub mod beam;
pub mod capture;
pub mod chars;
pub mod clusters;
pub mod decimal;
pub mod decode;
pub mod detector;
pub mod disjoint;
pub mod expansion;
pub mod features;
pub mod frames;
pub mod gray;
pub mod grouping;
pub mod groups;
pub mod judge;
pub mod lines;
pub mod measure;
pub mod multiline;
pub mod ordering;
pub mod overlap;
pub mod paths;
pub mod position;
pub mod recognizer;
pub mod region;
pub mod repair;
pub mod rules;
pub mod session;
pub mod sorter;
pub mod suppress;
pub mod text;
pub mod version;
pub mod vocab;
pub mod wire;
