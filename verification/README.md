# netmonitor

The verified core of a Windows tray network monitor: it shows the total
download and upload rates in the tray and, through an elevated helper that
reads the kernel's TCP/IP trace, ranks processes by traffic.

- `src/` is the library, written in Verus and proved against its contracts:
  rate labels (`speed`, with an exact integer model of binary64 division and
  `{:.1}` printing in `binary64`), the tray icon bitmap (`tray_icon`), the
  per-process traffic table and its ranked report (`process_table`), process
  display names (`process_names`), UTF-16 text from Windows buffers (`wide`),
  the helper's command line and reports (`helper_protocol`), the permission
  state machine (`monitoring`), rate sampling (`summary`) and tray/window
  decisions (`shell`).
- `app/` is the program around it: the Tauri window and tray, the named pipe,
  the ETW trace, the Windows lookups and the threads. It hands the library
  plain values and acts on what comes back.
- `tests/` checks the library on concrete values, among them against the
  standard library's own float printing and UTF-16 decoding.
