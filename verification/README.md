# tren

A job scheduler whose nodes are addressed by the bits of their place in a binary tree. Clients and
schedulers exchange 128-byte frames over UDP: 32 slots of 31 data bits, with a CRC-32C on the
diagonal. A spill is one scheduler process with its working directory; it takes 64 nodes and sends
clients on to the next spill when it is full.

`src/` holds what the scheduler and its tools decide, as functions with contracts that Verus proves:

- `frame`, `message`, `crc`, `detect`: the frame format, its messages, and which errors it notices
- `ids`, `idtree`: node numbers as a tree
- `startup`, `table`, `queue`, `runner`, `requests`: starting a scheduler, nodes, the order in which
  they run, the life of a node, and what a scheduler answers
- `client`, `args`, `settings`: submitting, waiting, command lines and settings
- `spill`, `gc`, `autogc`, `node_state`: what is kept on disk
- `priority`, `training_laws`, `model`, `simulation`: the learned priority, and schedules compared by
  simulation
- `research`: other CRC implementations, check layouts, and experiments on what they notice

The CRC comes from the `crc32c` crate and random numbers from `rand`. What is taken on trust of
them, and of four functions of std that have no specification yet, stands next to each declaration.

`app/` is the program around the library: sockets, files, processes, clocks and floating point.
`tests/` runs the library.
