# optimism

Optimistic parallel execution of transactions. Transactions run side by side, each on a
version of the state of its own, and keep a log of what they read and write. Afterwards
the logs are compared: those that got in each other's way are found, and it is planned
from where they run again.

`src/` is the library. Every function in it has a contract that Verus proves, except for
the three that call the channel of a batch (see below).

- `primitives`, `collections`: words, accounts, and sets and maps that keep their order.
- `db::versioned`: the stack of state versions above a base database.
- `parallel::operation_logs`: what a transaction did, and when such a log is valid.
- `parallel::conflict_detector`: conflicts with earlier transactions.
- `parallel::predictor`: which accounts are used together.
- `parallel::reexecution`: from where a transaction runs again.
- `handler`: one batch of transactions, the channel of its conflicts, and the order in
  which transactions run again.
- `scheduler`: which transactions run next.
- `coordinator`: a whole list of transactions, batch by batch.

What a module promises as a whole stands in its public proof functions, whose names begin
with `law_`. The channel of a batch is one of `crossbeam_channel`; what is assumed of it is
stated in `handler::conflict_channel`.

`app/` is the shell: it holds the base database, the locks, the threads and the EVM, and
does what the library asks for. `tests/` runs the library on concrete values.
