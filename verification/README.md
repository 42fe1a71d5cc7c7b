# cocoonfs

Verified core of the CocoonFS storage filesystem's transaction update tracking
and of its buffered, authenticated reads.

* `src/` holds the library. Everything in there is verified with Verus.
  * Update tracking: `states`, `states_index`, `regions`, `insert`, `fill`,
    `offsets`, `staged`, `apply`, `prune`, `journal`, `digest`, `iter`.
  * Loading a transaction's missing data: `transaction`, `read_region`,
    `read_missing_data`, `read_request`, `read_progress`, `read_poll`.
  * Reading through a read buffer: `block_buffer`, `read_buffer`,
    `buffered_read` and the modules named after it.
  * Common definitions: `align`, `layout`, `alloc_bitmap`, `block_state`, `fs`,
    `read_context`, `fs_future`, `sync_types`.
* `tests/` exercises the library on concrete values.
* `app/` contains the asynchronous plumbing: it submits storage requests and
  feeds their outcomes back into the library.

Operations waiting for something are represented as state machines: each
invocation of `poll()` reports what to do next, and takes the outcome of what had
been requested before.
