# bittorrent

The core of a small BitTorrent client, written in Verus and verified.

`src/` is the verified library:

- `bencode/` — the value type (`object.rs`), the writer (`encode.rs`), the
  reader (`decode.rs`), and the laws that tie them together (`laws.rs`):
  a written value that holds no list reads back, the reader gives up on one
  that does, and whatever is read is canonical.
- `decimal.rs` — decimal text of integers, written and read as Rust's
  `to_string` and `from_str` do.
- `message.rs` — peer wire messages, their framing, and their round trip.
- `peer.rs` — bit fields, peer addresses and state, the handshake, compact
  peer lists.
- `piece_picker.rs`, `piece_assembler.rs` — which piece to fetch next, and
  the digest check of a fetched piece.
- `torrent.rs` — a torrent read from its metainfo value, and its download
  state.
- `tracker.rs`, `tracker_manager.rs` — announce URLs, tracker answers, the
  trackers of a torrent and the peers they make known.
- `file_writer.rs` — where a piece's bytes go among the torrent's files.
- `stats_manager.rs`, `progress_displayer.rs` — transfer counters and the
  progress position.
- `hash.rs`, `text.rs` — the calls into `sha1`, `url`, `urlencoding` and
  `String::from_utf8`, with the contracts the rest relies on.

`app/` is the program around it: files, sockets, HTTP, the progress bar and
the task loops. `tests/` runs the library on concrete values.
