# portman

Finds which processes listen on which TCP ports of a Linux host, and kills them
on request. The library (`src/`) is written in Verus and proved against its
contracts; the program around it (`app/`) holds the terminal, web and process
I/O.

- `text`: lines, whitespace fields, pieces, trimming and searching, each with the
  meaning that Rust's `str` methods give them.
- `numbers`: unsigned decimal and hexadecimal numerals as `from_str_radix` reads
  them, and decimal numerals written out.
- `proc_net`: the kernel's TCP socket table (`/proc/net/tcp`).
- `ss`: the reports of `ss -tlnp`.
- `system`: the host's process table through the `sysinfo` crate.
- `ports`, `monitor`, `gui`, `tui`: the port monitor, the desktop view's back end
  and the dashboard's state.
