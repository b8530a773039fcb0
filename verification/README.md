# gfwsni

A proxy for this machine. It takes over the hosts that its rules give an address, shows clients
certificates signed by an authority of its own, and connects to the real servers by their
addresses, so that no host name is sent on the way; the servers' certificates are still held to
the real host names.

- `src/` is a library whose functions carry contracts that Verus proves. It decides everything:
  which lines stand in the hosts file, how DNS queries are read and answered, which certificate a
  host gets, where a connection goes, what the tray program does next. The proof functions whose
  names begin with `law_` state what holds of several of them together.
- `app/` is the program around it: files, sockets, TLS, the tray.
- `tests/` runs the library on given values.

Outside crates are called from the library in a few small functions whose contracts are taken on
trust; each says what it claims of the crate. The clock, random bytes and signatures are among
them: of these only what always holds is claimed.

At run time the program expects `data/public_suffix_list.dat`, the list of public suffixes,
beside its executable.
