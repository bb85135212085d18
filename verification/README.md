# coordify-core

The local coordination core for several coding agents working on one
project: it registers agents, records their claims on work, scores the
overlap ("heat") between them, opens conflicts between agents that overlap
too much, settles those conflicts from the agents' proposals (or hands them
to the user), detects agents that wait on each other, learns which files
keep causing trouble, and sums each session up.

Layout:

- `src/` is the library, written in Verus with its contracts proved:
  the agent registry (`state`), claims (`claim`), the heat inputs and bands
  (`heat`, `heatstore`), conflicts and their negotiation (`conflict`,
  `coordinator`), the wait-for graph (`waitgraph`), learned hotzones and
  couplings (`knowledge`), session statistics and the recap (`stats`,
  `entertainment`), request routing (`ipc`), the lock and token decisions
  (`bootstrap`), paths (`paths`) and the event log's size cap (`eventlog`).
- `app/` is the program around it: the Unix socket server, files and the
  clock, JSON, the reaper thread, and the floating-point heat score.
- `tests/` exercises the library on concrete values.

Protocol scope:

- Events are accepted only at CAP version 0.1; any other or a missing
  version is answered with UNSUPPORTED_CAP_VERSION.
- Each agent has a lifecycle state (DISCOVERY at registration, ACTIVE once
  one of its claims is made ACTIVE) and a generation (1 at registration,
  one more at each CLEAR_INVOKED, which also puts it back in DISCOVERY).
  AGENT_STATE_CHANGED accepts every move except that an agent waiting on a
  subagent may only go back to ACTIVE or go OFFLINE
  (INVALID_STATE_TRANSITION otherwise).
- FILE_TOUCHED adds the reported files to the touched files of the agent's
  first live claim; the newly touched files couple with each other and with
  the files the claim had touched before, and touched files count towards
  the claim's heat.
- A CLAIM_PROPOSED answer carries the claim id, its status and the advice
  (or REJECTED with the reason); a CLEAR_INVOKED answer carries the new
  generation.
