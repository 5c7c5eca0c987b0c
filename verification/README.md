# ledsync

Packet building and screen-edge colour sampling for Robobloq USB HID LED strips, with machine-checked contracts.

- `src/protocol.rs`: channel orders, session ids, RB/SC packet builders, chunking, reply parsing.
- `src/link.rs`: choice of the HID interface, output reports, MAC address from the device reply.
- `src/extractor.rs`: grid averages of BGRA frames, edge colours, time smoothing.
- `src/packet_laws.rs`, `src/extractor_laws.rs`: properties that span several functions.
- `app/`: HID I/O (hidapi), logging, and the floating-point steps of the colour pipeline.
