# log_server

A publish/subscribe log server. Publishers send log lines under a server key
(`name-version-no`); the server stores them in numbered log files and forwards
them to subscribers whose queue key begins that key, filtered by topic and log
type; queryers can ask the publishers of a key for their memory and receive
the answers.

- `src/` is the verified library (Verus): the wire framing (`codec`,
  `request`), the connection registry and the decisions taken on each request
  (`queues`, `connect`), line building (`content`), log file naming
  (`storage`), and the calls to `chrono` and `uuid` (`clock`).
- `app/` is the program around it: sockets, threads, files and arguments. Run
  it as `server` (default; `-max-day` sets how many days of logs are
  kept), `pub`, `sub` or `query`.
- `tests/` exercises the library on concrete values.
