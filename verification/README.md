# highway

highway is a websocket server for rooms: clients connect, join rooms, and what a member
sends in a room is passed on to all other members.

The library in `src/` holds what the server does with its rooms, its clients and their
requests, and Verus proves it. Its functions take the shared state and a peer, change
them, and list the effects that follow: texts to be sent over numbered channels, and
counts for the metrics. The program in `app/` owns the sockets and the clock. It reads
payloads, the configuration and IP addresses, sets the size limit of the websockets, hands
the library what comes in, performs the effects, and waits where the library says that a
message has to wait.

| module      | what it holds                                                        |
|-------------|----------------------------------------------------------------------|
| `model`     | payloads and their texts                                             |
| `room`      | rooms, their members, and what the members are told                  |
| `state`     | all rooms, the connections of each address, reloading the channels   |
| `peer`      | a connected client and what its payloads do                          |
| `endpoint`  | HTTP requests: the websocket handshake and the metrics               |
| `watch`     | how long a silent client is waited for                               |
| `ratelimit` | what a message costs, and buckets that are each made once            |
| `config`    | the configuration and its defaults                                   |
| `text`      | JSON texts                                                           |
| `directory` | string-keyed tables on top of `dashmap`                              |
| `laws`      | what holds of the server as a whole                                  |
| `json`, `wire` | what JSON is, and that everything the server sends is JSON with a type |

Where the order of a hash map decides in which order members are reached, the contracts
leave the order open; functions that take the order as an argument (`deliver`, `retell`,
`greeting`) are exact.

A handful of functions call other crates (`dashmap`, `serde_json`, `leaky-bucket-lite`,
`uuid`, `sha1`, `base64`, `argon2`) behind contracts that are not proved. Each says in its
doc comment what it claims.
