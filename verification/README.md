# raknet

A RakNet peer for a Minecraft Bedrock server, with its protocol logic
verified by Verus.

## Layout

- `src/` — the verified library. It does no I/O: datagrams are handed in as
  bytes, and the datagrams to send and the events for the user come back as
  values.
  - `reader.rs`, `writer.rs`, `codec.rs`: the wire encodings of integers,
    strings and socket addresses, with read-after-write laws.
  - `messages.rs`, `message_ids.rs`: the offline and connected messages.
  - `datagram_header.rs`, `internal_packet.rs`, `packet_datagram.rs`: the
    framing of datagrams and of the packets inside them.
  - `acknowledgement.rs`, `nack.rs`, `datagram_heap.rs`,
    `datagram_range*.rs`, `acknowledge_handler.rs`: acknowledgements,
    negative acknowledgements and datagrams in flight.
  - `reliable_message_number_handler.rs`, `split_packet_handler.rs`,
    `ordering_channel.rs`, `ordering_system.rs`, `outgoing_packet_heap.rs`:
    duplicate detection, reassembly of split packets, ordered and sequenced
    delivery, and the send queue by priority.
  - `reliability_layer.rs`, `connection.rs`, `offline_packet_handler.rs`,
    `connection_manager.rs`, `peer.rs`: a connection's reliability layer,
    the handshake, the answers to offline messages and the set of
    connections.
  - `bedroxide/`: the Bedrock side — decompression of game packets and the
    reading of the login packet.
- `app/` — the program around the library: the UDP socket, the processing
  loop and its thread, the channels to the user, logging and `main`.
- `tests/` — tests of the library on concrete values.
