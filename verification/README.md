# kahui

Kāhui is a chat network whose communities are hosted by their members: a
community is an append-only log of signed events, replicated to every member,
and every view of it (channels, members, history) is a function of the events.

This crate is the logic of a node, written in Verus and proved against its
contracts:

- `proto` — identities, content-addressed signed events, the canonical byte
  encoding, frontiers (one sequence number per author).
- `store` — the event log and what `put_event` lets in, the key layout, the
  views computed from the log, what a node keeps beside it.
- `net` — invites, the gossip wire format, the hash-table keys, which addresses
  to offer or dial, hole-punch timing, what to make of the router's answers.
- `node` — the engine: authoring, ingesting, parking early events, sync, what
  to tell the user, and what to do on each network event (whom to ask for
  history, which relay to ask to carry for us, which addresses to offer).
- `session` and `desktop` — what the command line and the desktop shell decide.

`app/` is the command line program around it: arguments, the terminal, and the
on-disk copy of a node's state. It runs offline; the network transports are not
part of this build.

Laws the library states and proves include: views and channel histories agree
on every node that holds the same events, whatever order they arrived in, and
sorted channel and member lists agree between nodes; renames are
last-writer-wins by causal position; a sync batch cut short still applies in
order, every event of an answer is accepted in turn, and asking again until
an answer is complete leaves both nodes with the same frontier; a
community's frontier counts exactly the events held of it; decoding inverts
encoding for events, invites and gossip.
