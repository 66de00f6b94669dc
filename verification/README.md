# h41

Discovers the TCP ports that processes listen on, from the output of `lsof`
(or `netstat` on Windows), and shows them in a terminal view, as JSON, or in a
small web page bound to localhost.

The library in `src/` is verified with Verus:

- `text`: strings as character sequences; splitting, trimming, replacing,
  decimal reading and writing, with their specifications.
- `lsof`: the field output of `lsof` (records, file descriptor lines, the
  working directory line).
- `ports`: the port entries, and how a listing is put together from the
  outputs of `lsof` and `ps`.
- `home`: the home directory that most working directories lie in.
- `windows`: the output of `netstat -ano` and `wmic`, Windows home directories.
- `tui`: the rules of the terminal view (what is shown, the key bindings, the
  selection, refreshes), as a state machine whose effects the caller performs.
- `server`: the rules of the web interface's kill endpoint.

`app/` runs the commands, the terminal, the threads, the clock and the web
server, and hands their results to the library.
