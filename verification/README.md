# pico-proxy

A captive-portal Wi-Fi selector for the Raspberry Pi Pico 2 W, with its decision
logic verified in [Verus](https://github.com/verus-lang/verus).

The device opens the access point `Pico-Proxy`, hands out addresses, answers every
DNS query with its own address, and serves a page that lists the networks around
it. The user picks one; the device closes the access point, joins the network and
checks that the internet is reachable. The LED spells the state in Morse.

| Path                  | Purpose                                                     |
| --------------------- | ----------------------------------------------------------- |
| `src/dhcp_server.rs`  | DHCP: leases, option parsing, replies.                      |
| `src/dns_server.rs`   | DNS: the one answer to every query.                         |
| `src/request.rs`      | HTTP requests: reading, request line, headers, forms.       |
| `src/http.rs`         | HTTP responses: routing, JSON, heads, what a request sets off. |
| `src/wifi.rs`         | The list of scanned networks.                               |
| `src/net.rs`          | The machine that leads from the portal to a network and back. |
| `src/morse.rs`        | Morse codes, blink patterns, the round of the status word.  |
| `src/shared.rs`, `src/ipc.rs` | What the tasks and the cores tell each other.       |
| `src/text.rs`, `src/bytes.rs`, `src/utf8.rs` | Bounded text, buffers, UTF-8. |
| `app/`                | Tasks on sockets, radio, LED and clock; the portal page.    |
| `tests/`              | Tests of the library.                                       |

Each function of the library states exactly what it returns. What holds across
functions is proved in the `law_*` functions: that two clients never share an
address, that the radio is never access point and client at once, that the form a
user submits asks for exactly the network and the password that were entered as long
as these fit the radio, that every scanned network stands in the list that the page
gets, and more.

Trusted without proof are the wrappers around `heapless` in `src/text.rs` and
`src/wifi.rs`, and around `core::str::from_utf8` in `src/utf8.rs`.
