# tailscale_top

A terminal monitor for a Tailscale network: it lists the tailnet's devices
with their IPv4 address, operating system, online status and traffic, logs
when nodes come online or go offline, and orders the table by name or by
traffic.

- `src/` is the library, verified with Verus: the device model and its
  labels (`api`), the reader of `tailscale status --json`, from its raw
  output to the map by IP (`json`, `status`, `strmap`), the Prometheus
  counter scanner (`metrics`), the node table with its stable sort, event
  log and refresh steps (`sorting`, `app`), byte formatting (`units`), the
  screen texts and key handling (`view`), and the string helpers they share
  (`text`).
- `app/` is the program around it: command line, HTTP calls to the
  Tailscale API and to each node's metrics page, running the `tailscale`
  command, decoding the API's JSON replies, reading counter values as
  floats, printing the log in log mode, and drawing with ratatui.
- `tests/` runs the library on concrete inputs.
