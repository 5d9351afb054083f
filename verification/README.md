# copper_sched

The verified scheduling core of a deterministic robot runtime: plans and their
validation, a proposer of multicore plans, the state of a lane executor,
statistics of recorded logs, and an aligner of message streams. `src/` is written
in Verus: its functions are proved against their contracts, and the laws that
relate them stand there as public proof functions.

## Layout of `src/`

| Modules | What they hold |
| --- | --- |
| `assembled`, `shape`, `schedule`, `validity` | generated process plans, what a schedule has to respect, schedules and their validation |
| `fixed`, `materialized` | plan files for a configuration, and the process plan that runs a fixed schedule |
| `keys`, `inventory`, `model`, `order`, `timeline` | the response-time model of a mission |
| `lexical`, `search`, `propose`, `proposal`, `answer` | the search for candidate plans and what holds of its answers |
| `parallel_rt`, `placeholder`, `lanes` | ordered commits, lane execution and the result queue as state machines |
| `signature`, `stats`, `logstats`, `schedule_profile`, `timing_profile` | graph signatures, statistics, profiles and timing rows of recordings |
| `varint`, `aligner`, `memory` | snapshots, time-bound buffers, and the memory report of the system |
| `error`, `graph`, `sorted`, `strmap`, `text` | what the others share |

## What is trusted

- `aligner`: the queue of the `circular_buffer` crate and the methods called on it.
- `varint`: how `bincode` writes and reads a number.

Each such function says in its comment what is claimed of the crate.

## Surroundings

`app/` holds what cannot be verified: files, floating point, threads and
serialization. `tests/` runs the library on concrete values.
