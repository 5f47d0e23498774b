//! A BitTorrent client's core: bencode, the peer wire protocol, piece
//! bookkeeping, and the metainfo and tracker formats.

pub mod bencode;
pub mod decimal;
pub mod file_writer;
pub mod hash;
pub mod message;
pub mod peer;
pub mod piece_assembler;
pub mod piece_picker;
pub mod progress_displayer;
pub mod stats_manager;
pub mod text;
pub mod torrent;
pub mod tracker;
pub mod tracker_manager;
