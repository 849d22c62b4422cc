# tui_monitor

The verified core of a terminal system monitor (CPU, memory, disk and
network usage, and a process table).

- `src/history.rs`: fixed-length sample histories, per-interval byte counts summed over devices.
- `src/app.rs`: the monitor state (`App`), one refresh from a `Sample` of
  readings, and the tab / scroll / ordering keys.
- `src/order.rs`: the stable ordering of the process table.
- `src/text.rs`, `src/ui.rs`: the text shown for byte counts, the table
  headers, labels and the visible window of the process table.
- `app/`: reads the system with `sysinfo` and draws the state with
  `ratatui`; the floating-point figures (averages, percentages, colours)
  are computed there.
