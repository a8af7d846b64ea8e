# fanring

Bounded channels in which every sender owns a ring of its own.

- `mpsc`: many senders, one receiver. Values of one sender stay in order. The
  receiver serves ready lanes in bounded round-robin bursts, blocking, with a
  deadline, without blocking, or polled.
- `mpmc`: many senders, many receivers. A receiver drains up to 64 values from a
  ready ring, returns one and stages the rest, where competing receivers may
  steal them. Ordering is relaxed.
- `chart`: the rules by which benchmark records are selected, combined and laid
  out as charts.

## Layout

`src/` is verified with Verus. Each kind of channel is one shared state, and each
operation of an endpoint is one step on it. A step that would block says what to
wait for instead, and one that others sleep for says how many to signal. The
contracts are stated over the values in the rings, the
staged values, and the counters of the wait cells. What holds of whole histories
stands in `mpsc::laws`, `mpmc::laws` and `ring::life`, and what a default chart is
made of in `chart::laws`.

| Module | Holds |
| --- | --- |
| `ring` | the bounded ring of one sender |
| `ready`, `bits` | the two-level index of lanes with work |
| `wait`, `publication` | wait cells, and the tracker of work in motion |
| `teardown` | what the last receiver does with unread values |
| `mpmc::queue` | queues of tickets on top of the crate `concurrent-queue` |
| `bags`, `count` | multisets and counting, for proofs |

`app/` puts locks, threads, futures, iterators and `Display` around the library
and draws the charts. `tests/` runs the library on concrete values, and
`tests/races.rs` runs small programs in every order of their steps.
