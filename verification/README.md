# cch23

A web service that answers a series of daily puzzle endpoints, with its computations
verified by Verus.

- `src/` is the library. Each `day_*` module holds the logic of one day's endpoints with
  its contract: parsers of path segments, parameters and request bodies, the counting and
  searching, the state machines of the web sockets, and the laws that relate them.
  `text` and `numbers` hold the string and decimal helpers they share. Calls into outside
  crates (`base64`, `chrono`, `htmlentity`, `image`, `regex`, `sha256`, `tar`, `ulid`,
  `uuid`) stand behind small trusted wrappers whose contracts say what the library relies on.
- `app/` is the Rocket server around it: routes, JSON bodies, the database, outside HTTP
  services, the clock, the file system and `git`, and the floating-point parts.
- `tests/` runs the library on concrete inputs.
