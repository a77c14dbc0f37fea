# xrd

A controller for Trackmania dedicated servers, which speak XML-RPC over the
"GBXRemote 2" protocol. The logic is a Verus library in `src/`; `app/` holds
the program around it (reading the configuration file, sockets, threads).

- `src/request.rs`: the minified request language (`mc`, `mn NAME`, `pa`,
  `paa va TYPE VALUE`) and `xform`, which expands it into an XML-RPC
  `methodCall`; a proved law says that every method call written in that
  layout comes back as the XML-RPC document of the same method and
  parameters.
- `src/callback.rs`: `parse`, which reads a callback from the server into
  its parameter values and method name, using an Aho-Corasick automaton to
  find the type tags.
- `src/commands.rs`: the core plugin's chat commands (`kick`, `ban`,
  `corehelp`); only admins can kick or ban.
- `src/transport.rs`: request framing, reply decoding, the server greeting
  and the requests sent when connecting.
- `src/config.rs`: reading the JSON configuration (version, and per
  virtual host its address, prefix, type, password and admins) with the
  `json` crate.
- `src/text.rs`, `src/encoding.rs`: string operations stated over `Seq`, and
  UTF-8 facts.
