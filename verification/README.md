# hocus_focus

A scheduled website blocker for macOS. Rules name domains and weekly time
windows; while a window is open, the domains are sent to the loopback address
through a section of `/etc/hosts` that the program owns.

- `src/` is the verified library (Verus):
  - `text` — whitespace, trimming, line splitting and joining, string order;
  - `domains` — `DomainSet`, a set of names kept in ascending order;
  - `hosts` — rewriting the hosts file's section, with the laws that a
    rewrite replaces the section and that clearing a section written into
    a file without marker lines gives the file back with its trailing
    whitespace reduced to one newline (for files with no carriage return
    right before a newline ahead of that whitespace);
  - `config` — rules, schedules, the default configuration and its path;
  - `scheduler` — day names, time windows (also across midnight), active
    rules and the blocked domains at a moment (a day of the week and a
    time of day, which `app/` reads from the local clock);
  - `daemon` — when the monitoring loop must write the hosts file;
  - `service` — reading the output of `id -u` and `launchctl print`.
- `app/` is the command-line program: argument handling, files, TOML,
  launchd, signals and the monitoring loop.
- `tests/` runs the library on concrete values.
