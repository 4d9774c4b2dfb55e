# Nebula

A small chat system: a client window that keeps channels and messages, a
server that answers clients and stores their messages in PostgreSQL, and the
formats they exchange.

- `src/` is the verified library (Verus). It holds the packet tree format and
  its round-trip law, the client's message manager and the events it takes,
  the client's session (requests it sends, replies it reads), the server's
  decision for each request, the SQL command text, the database records, the
  connection settings, message framing, decimal and big-endian numbers, and
  the key-pair check, and the kvptree packets that the client sends and reads
  (which texts kvptree reads without stopping, checked before each read).
  Calls into outside crates (`String::from_utf8`, `String::push`, kvptree's
  encoding and decoding, rsa and rand for keys, tokio's sender handle) stand behind
  small trusted items whose contracts say what the library relies on.
- `app/` is the program around it: the iced windows, the sockets, the tokio
  tasks and the PostgreSQL queries. Run it as
  `nebula client`, `nebula demo`, or `nebula server <user> <password> <host>`.
- `tests/` exercises the library on concrete values.
