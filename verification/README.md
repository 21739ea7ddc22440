# mymq_rs

An in-memory publish/subscribe message broker, verified with Verus.

- `src/broker.rs`: messages, subscribers, topics and the broker; each
  operation is stated over a mathematical view (`BrokerView`).
- `src/keyed.rs`: name-keyed entry lists and the maps they stand for.
- `src/clock.rs`: the monotonic clock that times hand-outs.
- `src/protocol.rs`: the line-oriented text protocol of the TCP front end.
- `src/laws.rs`: properties that span operations.
- `app/`: the demonstration, the TCP server and client, and a certificate
  maker.
