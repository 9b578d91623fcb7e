# ramulator_context

The decisions of a simulated memory with its readers and writers, verified with Verus.

Requests arrive on channels. They are gathered into batches, offered to a device that simulates
the timing of the memory, and answered once the device returns. `src/` decides; `app/` operates
dam's channels and the Ramulator device as the library asks.

- `access`, `address`, `channel`: requests, data and what is seen on channels.
- `memory`, `request_manager`, `batch`, `natural`: the parts of a context.
- `priority`: the order in which batches are passed on.
- `model`, `context`: what a context holds, and each operation on it.
- `run`: the loop of a simulation, as steps from an event to the next action.
- `soundness`, `conservation`, `contents`, `order`, `pace`, `rounds`: what holds of every run.

Every contract is proved. The arithmetic on unbounded numbers in `natural` is that of
num-bigint, whose results are taken on trust.
