# locallink

LocalLink links devices on a local network: it discovers peers, connects
to trusted devices over an authenticated, encrypted session, groups devices
into spaces, and runs add-ons for the spaces that are active.

The library in `src/` holds the logic, verified with Verus:

- `spaces`, `membership`, `sync`: the space store and its repair, invites,
  joining and leaving, and the owner's updates to members.
- `runtime`, `instances`, `manager`: which add-on instances should run, and
  the add-on supervisor's decisions, round by round.
- `config`, `discovery`, `protocol`, `transport`: trusted devices, peer
  tables, wire frames, the handshake and session crypto, the event queue.
- `api`, `api_client`: the local API's command handling and the client's
  argument handling.
- `ui`, `clipboard`, `echo`, `probe`: the text logic of the control windows
  and the decisions of the bundled add-ons.
- `text`, `order`, `strmap`, `strset`: strings, ordering, and the maps and
  sets the rest is built on.
- `ids`: fresh random ids (version 4 UUIDs).
- `external`: the calls into outside crates, with the contracts they are
  trusted to meet.

`app/` is the core program around the library: files, sockets, processes
and the async runtime. `tests/` runs the library on concrete values.
