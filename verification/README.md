# bittorrent

A small BitTorrent client library, verified with Verus.

- `src/client`: the client's identity (`Client`, `PeerId`) and the peer wire
  handshake (`Handshake`), with its byte layout and round-trip laws.
- `src/torrent_file`: torrent metainfo (`TorrentFile`, `Info`, `Keys`,
  `Pieces`), the bencoded form of the info dictionary and the info hash.
- `src/tracker`: the announce request URL, the compact peer list, `Peer`
  parsing from `a.b.c.d:port`, and download progress.
- `src/json`: bencoded values and their JSON view.
- `src/bencode`, `src/text`: byte framing and character helpers.
- `app/`: the command-line program (`decode`, `info`, `peers`, `handshake`):
  file and network I/O, and serde parsing of metainfo and tracker replies.
