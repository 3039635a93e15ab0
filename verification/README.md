# hugalloc

A large-object allocator on transparent huge pages, with cooperative residency control. Its rules are
written and proved in Verus.

Memory is handed out in power-of-two size classes from 2 MiB to 128 GiB. Each class has a pool of free
regions: a cache per thread, a queue that all threads share, and a queue of regions without contents.
An empty pool is refilled with an area of anonymous memory, larger than the one before it, which is cut
into regions. A background worker clears what is shared, more of it per tick when there is more.

## Layout

- `src/`: the library. It makes no system call: where memory is to be mapped, cleared or advised, a
  function answers with the request, and its caller reports what came of it.
  - `size_class`: size classes.
  - `queue`: the work-stealing queues of `crossbeam_deque`, and what is trusted of them.
  - `model`: the mathematical model of a pool.
  - `class_state`, `pool`: the pool of one class, and the pools of all classes with their threads.
  - `allocation`: memory for elements of a type.
  - `handle`, `advise`: regions of memory, and the residency hints on them.
  - `buffer`: fixed-capacity buffers over a region or the heap.
  - `config`, `background`: the settings, and the background worker's schedule and budget.
  - `stats`: statistics.
  - `ledger`, `books`, `laws`: what holds of the allocator as a whole: that no memory is handed out
    twice, that none gets lost, what a refused request leaves behind, and more.
  - `history`, `counters`: what holds whatever happened since the pools were new.
- `tests/`: the library on concrete values.
- `app/`: the allocator of a process around the library: system calls, global and per-thread state, the
  background thread, and owning types whose `Drop` gives memory back.

## Example

```rust
use hugalloc::{allocate, allocate_mapped, builder, GlobalStealer, Settings, Step, ThreadLocalStealer};

let mut global = GlobalStealer::new();
let thread = ThreadLocalStealer::new(&mut global, 1);
let mut settings = Settings::default();
builder().enable().apply(&mut settings);
match allocate::<u8>(&thread, &mut global, settings, 2 << 20) {
    // Map `request.len` bytes and hand their address to `allocate_mapped`.
    Step::NeedArea(request) => {}
    // Ask again.
    Step::Again => {}
    // Clear the handle's memory and hand it to `GlobalStealer::return_cleared`.
    Step::Clear(handle, result) => {}
    Step::Done(result) => {}
}
```
