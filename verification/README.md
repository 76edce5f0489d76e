# skyproto

The query protocol of a key/value server, as a verified library.

* `src/` is the library: the packet parser, the metaline reader and the steps by which a query is
  read, each with a contract that Verus proves. `encoding.rs` and `laws.rs` prove, among other
  things, that the packet of every query is parsed back to that query.
* `tests/` runs the library on concrete packets and lines.
* `app/` does the network work around the library.
