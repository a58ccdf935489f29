# webcam_viewer

Streams a USB camera (video4linux2) on the local network: the streamer sends raw
YUYV frames to a client that first presented the shared secret, and the client
converts them to RGB.

- `src/` is the library, verified with Verus: the secret block (`secret`), the
  streamer's per-connection decisions and their laws (`session`), the YUYV to
  RGB pixel layout (`yuyv`), dotted IPv4 addresses and the listening address
  (`ip`), timestamped log lines (`log`), the client's login form (`login`) and
  the streamer's settings (`settings`).
- `app/` is the streamer program around it: command line, camera, sockets,
  printing, and the floating-point colour arithmetic.
- `tests/` exercises the library on concrete values.

Start the streamer with `--help` for its options. It listens on 127.0.0.1 by
default; pass `--ip 0.0.0.0` to be visible on the network.
