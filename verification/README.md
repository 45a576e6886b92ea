# hw_monitor

A hardware and system monitor for Linux. The library (`src/`) holds the monitor's logic,
verified with Verus: the parsers of the kernel's `/proc` and `/sys` files, the counters and
their growth between two samples, the ranking of processes, the ordering of sensors, the
health levels and their colours, the alerts and the sample history.

`app/` is the program around it: it reads the files, turns counts into rates (floating
point), and shows them in a native window (eframe/egui) or, with `--web`, serves them over
HTTP and a WebSocket at `http://127.0.0.1:7878`. The logo (`static/logohw.png`) and the
web page (`static/index.html`) are read at run time from the working directory.

Modules of the library:

- `text`: character-level scanning (words, lines, prefixes, numbers, trimming).
- `order`, `table`: a lexicographic order with a verified sort, and last-wins name tables.
- `collector`: `/proc/stat`, `/proc/net/dev`, `/proc/diskstats`, `/proc/vmstat`,
  `/proc/meminfo`, `/proc/net/snmp`, mounts, loads and the figures derived from them.
- `process`: `stat` and `status` files of processes, tick growth, the top processes.
- `sensors`: hwmon input files, labels and their order.
- `health`, `insights`, `history`: levels, alerts and the recent samples.
