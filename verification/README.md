# incite

The core of a Battle.net lobby server, written in Verus.

- `src/` is the verified library: the packet frame codec (`frame`), the
  protobuf wire format and the protocol messages (`wire`, `header`,
  `connection_proto`), the byte buffers it reads and writes (`buffers`),
  service name hashing and the RPC envelopes (`rpc`), the service tables
  (`service_info`), the connection and response services, the connection
  handshake as a state machine (`session`), and the planner that nests the
  generated protobuf modules (`proto_modules`), with the order it takes
  the files in (`path_order`).
- `app/` is the server program around it: configuration, logging, sockets,
  the accept loop, and the futures that drive a session.
- `tests/` exercise the library on concrete values.

Configuration comes from the environment (or a `.env` file):
`SERVER_ADDRESS` (default `127.0.0.1:1119`) and `LOG_FILEPATH` (default
`./server.log`).
