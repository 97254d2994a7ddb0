# portopener

The rule registry of a TCP/UDP port forwarder, verified with Verus.

- `src/` — the verified library: forwarding rules (`rule`), the registry of
  rules and running tasks (`state`, `rulemap`), sequences read as maps by
  key (`keyed`), live traffic counters
  (`counters`), UDP client sessions (`session`), the log's hex dump
  (`hexdump`) and log tail (`logs`), and properties spanning several
  operations (`laws`).
- `tests/` — tests of the library on concrete values.
- `app/` — the desktop application around it: the Tauri commands, the
  rules and log files, and the asynchronous forwarding tasks.
