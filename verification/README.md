# cardano-census

Probes every relay in a cardano-node peer snapshot once and reports how much of
the network answered, weighted by stake. The library under `src/` is written in
Verus. Its functions are proved against the contracts that they state, a method
of a trait against the contract that the trait gives it; the exceptions are the
wrappers of outside code, see below. `app/` is the command line program around
it.

## Layout

| Module | What it holds |
| --- | --- |
| `text`, `table`, `sort`, `count` | Text, ordered tables, stable sorting, counting and summing over positions |
| `ip`, `net`, `asn` | Addresses as they are written and read, special-use space, the AS database |
| `cbor`, `node`, `snapshot` | CBOR items, the node-to-client session and the decoding of its answer, the snapshot |
| `resolve`, `schedule`, `probe`, `reversed` | From relay entries to endpoints, what is dialled in which order, one probe as a state machine, octet reversals |
| `outcomes`, `reasons`, `standing`, `stake` | The outcome of each entry, why it failed, how each pool stands, stake as terms of a sum |
| `pools`, `operators`, `networks`, `chains`, `churn`, `histogram`, `tally`, `census` | Everything that is reported of a run |
| `amounts`, `metrics`, `report` | What is shown: the amounts to work out, the textfile, the records of the report |
| `cli` | Command line values |

## Stake

A pool's stake is a fraction that the library never works out. A sum of stake is
the list of its terms, each an equal part of one pool's stake, in the order in
which they are added; `app/` adds them up in floating point. Where the order of
two sums matters, `census::build` asks its caller to rank them.

## Trusted code

Calls into minicbor, hex, pallas-network, rand and a few functions of std stand
behind small wrappers. Nothing proves what a wrapper's contract says: it is taken
for granted, and everything that calls the wrapper rests on it. The doc comment
of each names the function that it calls.

## Git revision

The environment variable `CARDANO_CENSUS_GIT_REV`, read when `app/` is built,
names the revision that `--version` and the `build_info` metric show; without it
they show `unknown`.
