# dispatch

A process manager that pins processes to CPU cores. The library in `src/`
holds its decisions, each with a contract proved by Verus:

- `masks`: affinity masks (`core_range_mask`, `cores_of_mask`);
- `affinity`: CPU sets for the kernel, built from a mask and read back
  (through `nix::sched::CpuSet`);
- `modes`: the plans of eco, auto-balance, gaming and performance mode;
- `ranking`: the stable ranking of processes by score;
- `process`: the process table, memory and score of a process;
- `config`: the priority list and the configuration file;
- `text`: white space, decimal numbers, and names cut to a column;
- `app_state`: the state of the terminal interface and its key handling.

`app/` reads the system (`sysinfo`), calls the kernel (`nix`, `winapi`),
computes the floating-point usage score, and draws the interface
(`ratatui`, `crossterm`).
