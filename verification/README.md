# kiro-gateway

The core of a gateway that answers the Anthropic Messages API from the Kiro service, written in
Verus. The library holds the decisions and the data; it does no I/O.

- `anthropic`: the conversion of the service's events into server-sent events (`stream`,
  `buffered`, `state_manager`, `thinking`, `sse`), what holds of every answer (`protocol`,
  `delivery`, `tool_calls`, `history`), token counts (`usage`), thinking signatures (`signature`),
  the clearing of old context (`context_management`), what is logged of a request (`logging`), and
  which credentials a key may use (`middleware`).
- `kiro`: retries and failover (`provider`), the simulation of the prefix cache (`cache_sim`), the
  cost of requests without a cache (`cache_estimate`), and the events and requests of the service.
- `db`: the statements on the database, and the records that go through them.
- `admin`: the replies of the administration interface.
- `common`, `model`: comparison of keys, and configuration.
- `json`, `text`, `text_map`, `ids`, `float_bits`: what the others build on.

`app/` is ordinary Rust around the library: the network, the database connections, the clock of the
cache, the serialised forms of the types, and all floating-point arithmetic. A floating-point
number passes through the library as its bits.
