# teleop_transport

A low-latency teleoperation transport (LTP1) and the relay protocol around it, written
in Verus: every function in `src/` carries a contract that Verus proves.

## Layout

- `src/` — the verified library.
  - `wire`, `header`, `framer`: big-endian encodings, the LTP1 header, datagram framing.
  - `control_envelope`: schema id + length + payload inside control datagrams.
  - `video_slice`, `gateway`: cutting JPEG frames into MTU-sized video datagrams, and
    the robot gateway's decisions (teleop records, statistics, target checks).
  - `receive`, `session`: duplicate suppression, per-stream reordering, video
    reassembly, and the receive path over a batch of datagrams.
  - `scheduler`, `bonding`: strict-priority send scheduling with earliest-deadline
    video, and duplicate/split path modes.
  - `fec`: XOR parity and single-loss recovery; FEC shard groups.
  - `shmem`: a power-of-two ring of fixed-size slots.
  - `recv_queue`: the bounded queue of received payloads behind the C ABI.
  - `pacing`: reconnect backoff, the teleop TCP retry schedule and the loop pause.
  - `jpeg`: reassembly of JPEG images from WebSocket chunks.
  - `relay`: the QUIC relay's video stream header, frame pacing and peer roles.
  - `identity`: the relay's TLS certificate chain and key from PEM text or a generated
    self-signed certificate (the PEM reader and the generator are outside crates,
    reached through three trusted wrappers).
- `tests/` — tests of the library on concrete values.
- `app/` — the programs (UDP session, C ABI, gateway, relays, proxy): sockets, threads,
  async I/O, TLS and floating-point path weighting, calling into the library.
