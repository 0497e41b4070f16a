# opv

A peer-to-peer video chat. Each webcam image is cut into numbered chunks of
at most 1500 bytes, each chunk travels as one UDP datagram, and the other
side glues 820 chunks back into a 640x480 RGBA frame. A STUN Binding request
tells each peer the address under which it can be reached.

- `src/` is the verified library: frames (`frame.rs`), chunks and their wire
  format (`transcode/`), the STUN reply reader, the datagram sender and the
  frame receiver (`network/`).
- `app/` is the program around it: argument handling, sockets, threads, the
  webcam and the two windows.
