# file_transfer

A file transfer over UDP with acknowledgements, as two terminal programs.

- `src/` is the verified library: how a file is cut into numbered chunks
  (`chunking`), the client's decisions (`client`: greet until connected, then
  send the chunks in order; record acknowledgements), the server's decisions
  (`server`: accept connections, collect each client's chunks, acknowledge
  them, store a client's bytes once they reach the file's length), and the
  boards of cells that show the progress (`acknowledgement_board_view`,
  `board_view`).
- `app/` is the program around it: laminar sockets, bincode encoding of
  packets, cursive drawing, and the files on disk. Run it with `server` as
  argument for the server, without for the client.
- `tests/` runs the library on concrete values, including a whole transfer.
