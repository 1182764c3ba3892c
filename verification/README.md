# nikkadb

A small key-value database server with a prefix tree of its keys, pattern searches over
the keys, transactions, deques and a log of changes, written in Verus.

- `src/` is the verified library: the content types and actions of the wire protocol
  (`content`, `protocol`, `serial`), the storage of values (`storage`), the prefix tree and
  its pattern search (`trie`), the database (`database`), the server's handling of each
  client's requests, transactions and log of changes (`server`), the client's requests and
  the reading of its answers (`client`), the server settings (`builder`, `config`) and
  the client's errors (`errors`). Each public function states what it returns or changes;
  the `law_*` proof functions state what holds across calls.
- `app/` is the server program around the library: sockets, files and threads.
- `tests/` runs the library on concrete values.
