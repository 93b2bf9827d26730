# tmrecv

Relay for the UDP telemetry of the PICTURE class of instruments: datagrams are
collected into batches and handed to TCP clients, and the packets they carry
(each running from the start word 0xBAADDAAD to the end word 0xDEADBEEF) can be
stored.

- `src/` is the verified library (Verus): `frame` cuts the byte stream into
  packets, `batch` decides when received datagrams are sent on, `utils` counts
  the bytes of a data-rate window, `header` reads a packet's header fields.
- `app/` is the program around it: arguments, sockets, the async tasks, the
  storage and the floating-point rate reports.
- `tests/` runs the library on concrete streams.
