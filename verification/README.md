# ais_forwarder

Forwards AIS sentences received over TCP or UDP to an HTTP endpoint, each line
prefixed with an NMEA 4.0 tag block that can carry the arrival time and the
latest position reported by gpsd.

- `src/` is the verified library (Verus):
  - `ais_reformatter` — tag block construction and checksum, splitting received
    chunks into prefixed lines;
  - `tcp_stream` — reassembly of lines from a TCP byte stream;
  - `gpsd_protocol` — framing, handshake and fix queue of the gpsd JSON protocol;
  - `upload_control` — the decisions of the upload retry loop;
  - `position` — the shared cell holding the latest position.
- `app/` is the program around it: argument parsing, sockets, JSON decoding,
  HTTP upload and the async loops that feed the library.
- `tests/` exercises the library on concrete values.
