# zentinel

The decision core of a reverse proxy, written in Verus: every function under `src/`
carries a contract that says what it returns. The contracts are proved, but for those of
the calls into other crates that are named below.

- Routing: `config`, `pattern`, `request`, `cache`, `matching`, `routing`, `explain`
- Checking configurations: `nodes`, `server`, `settings`, `profiles`, `shadow`, `lint`,
  `diff`, `presence`, `fingerprint`
- PROXY protocol: `addr`, `net`, `proxy_protocol`, `acceptor`
- Agent protocol: `wire`, `strmap`, `binary`, `messages`, `conformance`
- Tools: `apache`, `naming`, `import`, `scaffold`
- Text: `text`

Properties that relate several functions (a header that is written reads back, the
route that wins is the one that is explained, nothing of an imported file is dropped
in silence) are public proof functions beside the functions they speak of.

`app/` holds what needs a socket, a file or a clock. Calls into `bytes`, `dashmap`,
`regex`, `serde_json`, `sha2`, `hex` and `urlencoding` go through small functions whose
doc comments say what is taken from those crates without proof.
