//! The logic of a bridge that drives a retained UI tree over a C boundary.
#![allow(unused_imports)]
pub mod abi;
pub mod abi_file;
pub mod bench;
pub mod commit;
pub mod copy;
pub mod decode;
pub mod edit;
pub mod encode;
pub mod events;
pub mod float;
pub mod grow;
pub mod http;
pub mod ime;
pub mod inject;
pub mod input;
pub mod keys;
pub mod node;
pub mod plan;
pub mod probe;
pub mod recorder;
pub mod render;
pub mod report;
pub mod retained;
pub mod row;
pub mod scroll;
pub mod style;
pub mod table;
pub mod text;
pub mod utf16;
pub mod views;
pub mod window;
pub mod wire;
