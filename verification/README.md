# zenoh-plugin-lcm

A bridge between LCM UDP multicast traffic and a Zenoh network, with its rules verified in Verus.

- `src/` is the library. It touches no socket and no session: it turns messages into datagrams and
  back, maps channels to key expressions and back, filters channels, prevents loops, and reads the
  configuration. Every function states its behaviour as a contract, and the files that end in
  `_laws` prove what holds of several functions together.
- `app/` is the standalone bridge around it: command line, sockets, session and tasks.
- `tests/` runs the library.

| Module | What it holds |
|---|---|
| `protocol`, `protocol_laws` | the wire format: `LC02` short messages and `LC03` fragments |
| `fragment`, `fragment_laws` | reassembly with a timeout and a size limit |
| `multicast`, `transport_laws` | fragmentation, sequence numbers, what arrives becomes messages |
| `types`, `url_laws` | messages, and the URL `udpm://GROUP:PORT?ttl=N&recv_buf_size=M` |
| `mapping` | `{prefix}/{channel}` and back |
| `config` | settings, and the allow/deny filter |
| `lcm_to_zenoh`, `zenoh_to_lcm`, `bridge_laws` | what is done about each message and publication |
| `plugin` | the transport that a configuration asks for, and the admin space |
| `bridge`, `bridge_args_laws` | the settings that a command line asks for |
| `addr`, `clock`, `number`, `text` | addresses, time, numbers and texts |

What the proofs take on trust is marked `external_body` or `assume_specification`, with a comment
that says what is believed of which outside function.
