//! Mode S reception: the decisions of a receiver, free of devices and sockets.

pub mod crc;
pub mod params;
pub mod repair;
pub mod preamble;
pub mod slicer;
pub mod known;
pub mod demod;
pub mod demod_laws;
pub mod decode_laws;
pub mod order;
pub mod probe;
pub mod collide;
pub mod collide_laws;
pub mod iq;
pub mod text;
pub mod beast;
pub mod beast_in;
pub mod reduce;
pub mod json_serve;
pub mod gain;
pub mod stats;
pub mod track;
pub mod track_json;
pub mod clips;
pub mod connector;
pub mod intake;
pub mod publish;
pub mod station;
pub mod reception;
pub mod uncover_laws;
pub mod images;
pub mod any_start;
