# fingermouse

A finger server. User details come from TOML profiles in an object store, and
`.plan` files are delivered when a client asks for them with `/W`.

- `src/` is the verified core: reading queries, validating names, rate limiting,
  loading and rendering profiles, the configuration, and what the server does at
  each step of a connection. Its contracts are proved with Verus.
- `app/` runs the core: command line, sockets, the object store, logging, and the
  metrics endpoint.
- `tests/` runs the core on examples.

## Layout of the store

```plaintext
<store-root>/
  profiles/
    alice.toml
  plans/
    alice.plan
```

A profile is a UTF-8 TOML table of strings with a `username` that matches the
account. The other keys are shown as `Key: value` lines, with the values verbatim.
Plans are UTF-8 text and are shown in printable ASCII only.

## Rate limiting

Each client address has a sliding window: a request is admitted while fewer than
the permitted number of the client's admitted requests lie within the window that
ends with it.

## What is trusted

Items marked as trusted call into chrono, dashmap, indexmap, mockable,
object_store, toml or std. Their contracts say what the proofs rely on.
