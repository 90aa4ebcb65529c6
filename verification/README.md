# hallvardns

A small DNS server for a home network, run on an ESP32 board. It reads the
question of each query, answers a few local host names itself, refuses names
on a block list, and forwards everything else to an upstream resolver.

- `src/` is the verified library (Verus): the question parsers, the reply
  writers, the blocking and local-name policy, and the decision of what to do
  with each query.
- `app/` is the firmware around it: chip and radio start-up, the WiFi tasks and
  the UDP sockets that move packets to and from the library.
- `tests/` runs the library on concrete packets.
