# cuda_lbm

A verified core for a single-precision D3Q19 lattice-Boltzmann workload on a CUDA
device, and the program that runs it.

`src/` is the library, written in Verus. It holds:

- `lattice`: directions, weights, layout, periodic addressing;
- `field`: making and advancing a state cell by cell on the host;
- `sweep`: walking over values, cells and their surroundings;
- `conservation`, `translation`: what a step keeps over the whole lattice, and that no
  cell of it is special;
- `template`, `fill`, `kernel`: the kernel text and its specialisation for a lattice.
  The kernel text is this crate's own; `specialize` fills the placeholders of any other;
- `solver`: the buffers, launches and batches of a solver on the device;
- `args`: the settings of a run, from words and environment variables;
- `power`, `sampler`: the power trace, its integration window, and how it is taken;
- `energy`: the energy under a trace in exact numbers;
- `ieee`, `report`: the gates of a run and the contents of its reports;
- `clock`, `error`, `text`: what the others share.

Floating-point numbers enter the library as their bits, or as values of a type that it
only copies.

`app/` is what surrounds it: command line, files, the device through cudarc, board power
through NVML, and the floating-point arithmetic of a cell, of the diagnostics and of the
energy. `app/main.rs` is the program; `app/lib.rs` offers the solver on a device to other
programs. `tests/` runs the library.
