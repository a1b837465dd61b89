# pm3

A process manager: a daemon that starts, stops, restarts and watches the
processes described in a `pm3.toml` file, and a command-line client that talks
to it over a local socket.

The decisions of the manager are a library written in Verus, with contracts
that Verus proves:

- `config`, `envfile`: validation of process entries, environments and env
  files, and the `KEY=VALUE` text of an env file;
- `deps`: dependency checks and the ordering of processes in start levels;
- `manager`: cluster expansion, name resolution and the start plan;
- `lifecycle`: the plans for stop, restart, reload, flush, signal, log and
  dump/restore requests;
- `process`: command and signal parsing, the restart policy and its backoff,
  and what happens when a child exits;
- `memory`, `paths`, `log`, `protocol`, `console`, `cli`: memory limits, file
  locations, log rotation, message framing and the client's formatting.

`app/` holds the program around it: argument parsing, the TOML and JSON
formats, the socket, the spawning of processes and the asynchronous runtime.
