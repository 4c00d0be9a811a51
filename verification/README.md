# eon-stream-engine

Drives mpv, run as a separate process, over its JSON IPC channel. The library
in `src/` holds the decisions, each with a contract proved by Verus; `app/`
performs them.

- `src/error.rs`: the error kinds and the sentence each one reads as.
- `src/text.rs`: searching, trimming, splitting and decimal writing over the
  characters of a text.
- `src/json.rs`: JSON string literals, proved to decode back to the string
  they were written for.
- `src/ipc.rs`: request lines and their ids, reading a field out of a reply,
  and the state machine that waits for the reply to one request.
- `src/number.rs`: reading a track id written in floating-point syntax.
- `src/track.rs`: reading mpv's `track-list` reply.
- `src/player.rs`: playback sources and their display hints, tracks and their
  list lines, seek modes, and the argument lists of the player's commands.
- `src/launch.rs`: mpv's command line, the control channel's name, the
  order in which mpv is looked for, and the steps of a launch with the error
  each failure ends in.
- `app/`: the running player: starting and stopping mpv, the socket or named
  pipe, and the values mpv reports as floating-point numbers.
