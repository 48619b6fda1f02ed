# pulse

A terminal system monitor for Windows (CPU, GPU, memory, drives, network) built around a
verified core library.

- `src/` — the library, verified with Verus:
  - `history` — bounded sample series and their sparkline normalisation;
  - `storage` — drive selection and ordering, the NVMe / ATA SMART / storage-property
    request buffers and the decoding of their replies;
  - `network` — adapter choice, traffic deltas between refreshes, reading `ping` output;
  - `sensors` — CPU name, memory module labels, thermal zone choice, missing-sensor note;
  - `display` — the texts drawn on the dashboard;
  - `text` — character-level string tools the others are specified with.
- `app/` — the program: sysinfo, NVML, WMI and Win32 I/O, floating-point conversions and
  the ratatui dashboard.
- `tests/` — tests of the library on concrete values.
