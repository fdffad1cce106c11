# mi7

Shared-memory messaging for cooperating processes, with its logic verified by Verus.

`src/` is the verified library:

- `text`, `text_lemmas`: decimal rendering and parsing, trimming and splitting of text.
- `layout`: how numbers are laid out in shared memory (little-endian bytes).
- `version`: semantic versions, their order, parsing and compatibility.
- `pipe`: pipe layouts (predefined types and custom capacity / slot size) and their checks.
- `shared_slot`: the slot pipe — hold, write, fetch, read — with checksums and status.
- `shared_box`: the mailbox of boxes of several sizes, its layout, locking and statistics.
- `shared_ring`: the ring of request slots with separate reading and writing positions.
- `ipc`: the cross-process message queue (length-prefixed messages in fixed slots),
  its errors, message ids and references to large data kept in files.
- `config`: the sectioned configuration, defaults, validation and lookups.
- `logging`, `message`: log locations and the pipe message.
- `entry`: the HTTP request flow and the scheduler that reserves slots.
- `worker`: what a consumer does with a slot it is handed.

`app/` is the program around it: shared memory mapping, the configuration file,
logging, the HTTP/TCP/UDP/WebSocket servers and the daemon.
