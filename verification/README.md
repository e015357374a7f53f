# steam-accelerator

A local proxy for the desktop. It listens on `127.0.0.1:26561`, decrypts the
traffic of the hosts that the user has chosen, under certificates that it issues
itself, and sends it on over one shared HTTP/2 connection for each host. All
other traffic is passed through as it is.

`src/` is the library: the decisions of the proxy, with contracts that Verus
proves. What the outside crates do is stated in contracts of its own, each next
to the call that it describes, and taken on trust.

| module      | what it holds                                                     |
|-------------|-------------------------------------------------------------------|
| `text`      | searching, trimming, words and lines, numbers                     |
| `authority` | hosts and ports, request targets, the canonical form of a host    |
| `head`      | reading the head of a request from a stream                       |
| `fields`    | the header fields as bytes, writing the `Host` field anew         |
| `hosts`     | the set of accelerated hosts and the table of routes              |
| `proxy`     | what becomes of a connection and what is sent ahead; traffic      |
| `upstream`  | addresses and header fields of requests to an upstream            |
| `pool`      | the shared upstream connections and the rule of one retry         |
| `cert`      | the root certificate and the certificates issued under it         |
| `tls`       | the TLS settings of upstream connections                          |
| `failure`   | which failures of a connection are worth a warning                |
| `logs`      | the last lines of the log                                         |
| `config`    | the settings and the state of the application                     |
| `desktop`   | installing the root certificate, the tray icon                    |

`app/` is the program around it: sockets, files, the window. `tests/` runs the
library with the crates that it calls.
