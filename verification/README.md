# fakecord

The server of a small voice and text chat service. Clients keep four TCP
connections open (main, chat/audio, updater, audio out); the server keeps a
pool of channels loaded from MongoDB and a pool of client connections, and a
worker keeps each channel's last ten chat messages in the database.

The decisions are a Verus-verified library (`src/`):

- `text` — substring search, splitting at a separator, line framing, decimal numbers.
- `protocol` — the client signals, the worker commands, join requests and chat lines.
- `model` — users, messages, channels and connections, with their views.
- `pool` — the channel pool built at start-up, joining, connection registration,
  channel info, member lists, chat installation and disconnects.
- `watch` — one look of the per-client watcher at the pools.
- `worker` — which stored messages a client lacks, trimming, new messages.
- `wire` — the bincode frames sent to clients, stated byte for byte.

`app/` holds the program: MongoDB access, sockets, threads and channels, and
serde copies of the records for the bytes clients send.
