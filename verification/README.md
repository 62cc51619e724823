# pulsar

The decisions of an inference engine that streams experts from disk, written in
Verus and proved.

- `src/` is the library. Nothing in it touches a device or a file. A forward
  pass is computed as a plan, a list of operations on named buffers, and a batch
  of disk reads as a state machine that says what to submit next.
- `app/` runs it: the ring and the files, the device, and the small tools around
  model files.
- `tests/` runs the library on concrete models.

| module | holds |
| --- | --- |
| `plan`, `text` | the plan file of reads, and the text it is made of |
| `expert`, `directory` | where the experts and tensors of a model file lie |
| `ring`, `uring`, `fetch` | reads in flight, brackets of whole blocks, shards |
| `checksum` | what the statistics of a whole run say |
| `q8k` | the layout of a quantized row |
| `engine::ops`, `engine::shape` | operations, buffers, the shape of a model |
| `engine::k3`, `engine::bailing`, `engine::qwen38` | the three families |
| `engine::ple` | the hash of the n-gram embedding and its table |
| `engine::access`, `engine::room`, `engine::home`, `engine::crossing` | what an operation touches, and whether it stays in its buffer and on its card, and waits before it crosses |
| `engine::hazard`, `engine::memory` | what may follow what, and what copies do |

Public proof functions state what holds of whole passes: that every access stays
inside its buffer, that every buffer is allocated, that a prompt may run
in parts, that the host waits where it has to, and that what is saved comes back.
