# sysfetch

The verified core of a small system-information fetcher.

- `src/text.rs`: trimming, replacing, splitting, decimal rendering and UTF-8
  decoding of command output, each with an exact specification.
- `src/color.rs`, `src/color_iter.rs`: terminal colours and the decoder for
  colour-coded text (`${name}`, `\` escapes).
- `src/style.rs`: the titled report lines (OS, user, host, kernel, model).
- `src/info.rs`: uptime, graphics adapters, GTK themes, battery, users,
  device model.
- `src/packages.rs`: package-manager and `PATH` summaries.
- `app/main.rs`: reads files, runs commands and prints the report.
