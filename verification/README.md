# audio-connector

A small JACK graph watcher. It keeps a **declarative TOML map** of the connections you want applied
to a running JACK graph: whenever ports appear or the graph is reordered, it reconciles the graph
against the map, making the connections that are declared but missing.

It is **non-destructive**: it only adds the connections you declare (and removes the ones you
explicitly mark `disconnect:`). Connections you make by hand are left alone.

What it decides is written in Verus and proved; what it does to files and to the JACK server is
ordinary Rust.

## Layout

- `src/` is the verified library.
  - `config`, `paths`, `document`, `value`, `merge`: loading a map from TOML files, with their
    `include` lists.
  - `ports`, `plan`: the current ports that a port spec stands for, and the steps that a map asks
    for.
  - `pass`: one pass over these steps, as requests to the server and its replies.
  - `reconciler`, `watch`: what persists across passes, and when a pass is due.
  - `settings`: the argument and the environment variables.
  - `laws`: what holds of the whole, such as that undeclared edges are left alone, that one pass
    settles the graph, that an include cycle is never loaded, and that the loop ends once it is
    asked to.
- `tests/` runs the library on concrete maps and ports.
- `app/` is the program: it reads files, talks to JACK and waits. Where file names are not put
  together with slashes, it also tells the library which path an included name stands for.

The library calls the `toml` and `regex` crates. What is believed of them without proof stands in
the contracts of the functions marked `external_body` in `value.rs`, `document.rs` and `ports.rs`.

## Usage

```sh
audio-connector [CONFIG_PATH]
```

The config path is the first positional argument, else `AUDIO_CONNECTOR_CONFIG`, else
`/etc/audio-connector/connections.toml`.

| Variable                      | Default                                 | Meaning                                           |
| ----------------------------- | --------------------------------------- | ------------------------------------------------- |
| `AUDIO_CONNECTOR_CONFIG`      | `/etc/audio-connector/connections.toml` | Path to the connection map.                       |
| `AUDIO_CONNECTOR_CLIENT`      | `audio-connector`                       | JACK client name to register as.                  |
| `AUDIO_CONNECTOR_DEBOUNCE_MS` | `500`                                   | Wait for a burst of graph events to settle.       |
| `AUDIO_CONNECTOR_COOLDOWN_MS` | `3000`                                  | After applying, ignore the events we just caused. |
| `RUST_LOG`                    | `info`                                  | Log verbosity.                                    |

## The map

Each table is a **source** client; each key is one of that client's output ports; the value is an
array of **destination** ports, written as full `client:port` names.

```toml
include = ["midi.toml"]

[synth]
out_left = ["mixer:in_1", "recorder:in_1"]

[capture-device]
"regex:capture_.*" = ["regex:effects:input_.*"]

[player]
"disconnect:out_0" = ["system:playback_1"]
```

A `regex:` prefix selects start-anchored regular-expression matching: on a key, of the client's own
port names; on a destination, of full port names; on a client, of the client's name. What has no
such prefix is taken literally, except that under a client with the prefix a port's name need only
begin with the key. A `disconnect:` prefix on a key removes the listed edges instead of adding them.
Included paths are relative to the including file, and lists under the same key are joined without
duplicates.
