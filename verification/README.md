# rpc

A small RPC system over HTTP. A client encrypts a JSON service call with the
server's RSA public key and sends it, as a byte list `[b0, b1, ...]`, in the
body of `GET /api/<service>`; the server decrypts it, runs the service
(`add` or `subtract` of two integers), and answers with
`{"result":[...]}`, the reply encrypted with the client's public key. Keys
are exchanged once, in `bincode`, when the first client connects.

## Layout

- `src/` — the library, verified with Verus:
  - `text.rs`, `decimal.rs`: the `str` operations and number parsing and
    formatting that the protocol uses, each with its specification;
  - `httprequest.rs`, `httpresponse.rs`: reading and writing HTTP messages;
  - `router.rs`, `handler.rs`: which handler answers a request, and what it
    answers;
  - `call.rs`, `stub.rs`, `tcp_call.rs`, `message.rs`: service dispatch and
    the request-body format;
  - `rsa_crypto.rs`, `serialization_json.rs`: RSA (PKCS #1 v1.5) and JSON,
    through the `rsa`, `rand`, `bincode` and `serde_json` crates;
  - `client.rs`: what the client sends and how it reads the reply.
- `app/` — the programs: `httpserver`, `tcpserver` and `tcpclient`, given as
  the first argument. They do the socket and file I/O and the `serde`
  parsing of messages, and leave every decision to the library.
- `tests/` — tests of the library.

Static pages are read from the directory named by `PUBLIC_PATH`.
