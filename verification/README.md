# rust_apps

A small set of network tools with a verified core, written in Verus.

- `src/` is the verified library:
  - `config` reads the streamer's `key = value` configuration text;
  - `playlist` shuffles, picks and builds one playlist cycle (exactly, for
    given seeds, and from clock seeds);
  - `tracks` selects and orders the MP3 entries of a folder and names tracks;
  - `icecast` writes the Icecast source and metadata requests and checks the
    server's answer; `base64` encodes the Basic credentials;
  - `session` decides the streamer's next step: connect, build a cycle,
    play its tracks in order, build the next, pause and reconnect on failure;
  - `drive` builds the Google Drive client and drives the paged file listing;
  - `server` holds the TCP server's address and messages, and maps a `GET`
    request to a file of the public folder and its response head;
  - `port_tester` decides the TCP port tester's reads and messages;
  - `text` and `clock` are shared helpers.
- `app/` holds the programs' entry points and their file, socket and HTTP I/O.
- `tests/` exercises the library on concrete values.
