# sni-gate

A gateway that routes TLS, HTTP and QUIC connections by the name their first
bytes carry, and forwards them raw, over TLS, or over TLS with Encrypted Client
Hello.

`src/` is the library: everything the gateway decides, with contracts that Verus
proves. It does no I/O.

- `peek`, `quic_initial`: the server name in a ClientHello, an HTTP head, or a
  flight of QUIC Initial packets.
- `config` and its modules: the configuration, its scopes, templates, named
  resolvers and regexes, and their validation.
- `gateway`: from the configuration to what each listener runs with.
- `proxy`, `h3_proxy`, `quic_proxy`, `quic_runtime`, `quic_socket`: how a
  connection, a request or a datagram is served.
- `ech`, `dns`, `dns_resolvers`: ECH configurations, upstream addresses, and the
  resolvers they come from.
- `pool`, `connect`, `probe`: choosing among endpoints, racing addresses, and
  checking backends.
- `certscope`, `psl`: which names may share a certificate, and when the public
  suffix list is renewed.

Where the library calls another crate it does so in a function whose contract is
trusted; the doc comment above says what is claimed of the call.

`app/` is the program around it: the command line, sockets, files, TLS and DNS.
Certificates for routes that terminate TLS are read from their `cert_file` and
`key_file`.

`tests/` runs the library on concrete values.
