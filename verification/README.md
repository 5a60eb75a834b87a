# sysplot

A terminal viewer for sysstat history, read through `sadf -j`.

- `src/` — the verified library:
  - `view.rs`: the metric screens and their tab order (`next`/`prev`), with
    the laws that they are inverse and cycle through all screens;
  - `report.rs`: the sample data reported by sadf (float readings held as
    their `f64` bit patterns) and the choice of the first host;
  - `text.rs`, `sorted.rs`: character-level string helpers, the code-point
    order on names and a sorted, duplicate-free name list;
  - `series.rs`: the per-screen series picked out of the samples;
  - `labels.rs`: date/time axis labels and the header tabs;
  - `app.rs`: the viewer state (screen, selected device and interface),
    key handling, and the laws on selection stepping.
- `app/` — the program: argument parsing, running sadf and parsing its JSON,
  the terminal loop and the chart drawing.
- `tests/` — tests of the library.
