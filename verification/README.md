# bare-server

A static file server with TLS termination, written in Rust and verified with
[Verus](https://github.com/verus-lang/verus).

At boot every document root is loaded into an immutable table. A request is
answered from that table, so that no path a client sends becomes a path on disk;
the one exception is the ACME http-01 challenge, which is read live.

- `src/` is the library: everything that is decided. Each function states in its
  contract what it returns, and the laws that hold of several functions together
  stand next to them as proof functions whose names begin with `law_`.
- `app/` is the program around it: sockets, files, threads and the clock.
- `tests/` runs the library on concrete values.

| Module        | What it decides                                                  |
| ------------- | ---------------------------------------------------------------- |
| `text`        | searching, splitting, trimming; numbers as text                  |
| `config`      | what a configuration file means                                  |
| `config_laws` | what holds of every configuration file                           |
| `redirects`   | where a redirect rule sends a path                               |
| `http`        | the pieces of a request: codings, tags, hosts, percent-encoding  |
| `request`     | which request heads are taken, and what they ask for             |
| `response`    | the bytes of headers and status pages                            |
| `mime`        | content types                                                    |
| `compress`    | gzip and brotli                                                  |
| `cache`       | what is cached of a site, in which forms and within which budget |
| `walk`        | which files of a tree are loaded, and when loading is given up   |
| `vhosts`      | the table of sites                                               |
| `serve`       | from a request head to the bytes of its answer                   |
| `heads`       | where a header block ends                                        |
| `wire`        | all the bytes of an answer, and what holds of them               |
| `closing`     | what closing a connection changes in a header                    |
| `conn`        | the request loop of a connection, and its deadlines              |
| `limits`      | slots for connections, in all and per peer; the accept loop      |
| `tls`         | which certificates are offered under which names                 |
| `signature`   | how a change on disk is noticed                                  |
| `watch`       | when what is served is built anew                                |
| `banner`      | what is printed at boot                                          |
