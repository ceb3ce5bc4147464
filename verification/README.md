# shared_objects

Wait-free shared-memory objects for a fixed set of processes, with their
logic verified in Verus.

- `src/` is the verified library:
  - `process`: systems of processes numbered `0..n`, process identifiers, and
    the per-process `View` that snapshot objects return;
  - `process_local`: one value per process;
  - `snapshot`: the register values of the atomic snapshot and the
    double-collect step (return, borrow a helper's view, or scan again),
    with proofs that a snapshot scans again at most `n` times, that a
    successful double collect returns the registers' contents at one instant,
    and that an update changes only its own entry;
  - `immediate_snapshot`: the level descent of the one-shot immediate snapshot
    and the merge of the values read for the processes of its view;
  - `snapshot_run`: over a model of the registers' history and of each
    process's updates, proofs that a borrowed view was taken strictly within
    the borrowing snapshot, that every snapshot therefore returns the
    registers' contents at an instant of its run, and that a finished update
    is seen by later snapshots;
  - `immediate_run`: over a model of the level registers' events in a
    concurrent run, proofs that the views processes settle on contain
    themselves, are ordered by inclusion and are immediate;
  - `reclaim`: the hazard-pointer decisions of the atomic register, with proofs
    that a reclaim never frees an address among the hazard slots it is given,
    that no retired address is lost, and that an address a reader has
    confirmed is not freed by a reclaim whose scan of the slots falls between
    the reader's publish and clear.
- `app/` holds what runs on threads and touches memory directly: the atomic
  register, the shared register built on it, the collect, snapshot and
  immediate snapshot objects, and running a process on a thread.
- `tests/` exercise the library.
