# sfs_forward

The client side of a distributed file system's request forwarding: which
servers a file operation reaches, what each is asked, and what the operation
returns once they answer.

- `src/` is verified with Verus. `plan`, `grouping` and `requests` build the
  requests of each operation (write and read are split chunk by chunk over the
  servers, with proofs that every chunk goes to exactly one server and that the
  shares add up to the requested size); `forward` and `gather` turn replies
  into results; `laws` holds the properties that span several functions.
- `app/` is the network edge: it locates servers, sends the planned requests
  through a transport, decodes replies with serde, and copies read data into
  the caller's buffer.
- `tests/` runs the library on concrete values.
