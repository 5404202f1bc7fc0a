# keepafloatd

A daemon that keeps virtual IPs on healthy hosts. Members report the result of a local health probe
through a Raft log; from the committed log every member computes the same holder for every VIP. A new
holder binds an address only once the one before it has released it or is no longer eligible.

- `src/`: the library, verified with Verus. Configuration (`config`, `normalize`), addresses and text
  (`addr`, `text`), ordered maps (`order`, `ordmap`), the replicated state and log (`raft::store`),
  what goes over the wire (`raft::wire`), the decisions of the transport, of cluster formation and of
  the guard against being left behind (`raft::network`, `raft::probe`, `raft::cluster`), submitting
  (`submit`), the health probe (`health`), and binding (`bind_policy`, `vip`). Functions named
  `law_...` state what holds of several of them together.
- `app/`: the process around it. Sockets, child processes, timers, the storage and network traits of
  OpenRaft, JSON and YAML.
- `tests/`: concrete cases.

What is trusted without proof is marked `external_body` or `assume_specification`: two calls into
OpenRaft (its timing check and how it writes a log id) and four into the standard library.
