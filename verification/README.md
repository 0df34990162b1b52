# scheduler

A simulator of CPU scheduling policies, verified with Verus.

The input is a text description (`processcount`, `runfor`, `use fcfs|sjf|rr`,
`quantum`, and one `process name N arrival A burst B` line per process). The
program simulates the chosen policy tick by tick and writes a report with the
event log and, per process, the wait, turnaround and response times; with
`--graph` it also draws the schedule on the terminal.

Layout:

- `src/` — the verified library
  - `text.rs`: decimal rendering, padding, white space, word splitting, substring search
  - `model.rs`: processes, events, figures, and the mathematical log they are held to
  - `fcfs.rs`, `sjf.rs`, `rr.rs`, `cfs.rs`: the four policies, each as a
    tick-by-tick state machine in spec code, the executable simulation proved
    to follow it, and the properties proved of it
  - `sjf_delay.rs`: delaying every arrival and the end of the run of
    shortest job first by `d` ticks only puts `d` idle ticks in front of the log
  - `config.rs`: the reader of the input description
  - `report.rs`: the text of the report and the name of the output file
  - `graph.rs`: what the terminal view shows at each tick
  - `dispatch.rs`: choosing the policy by number
  - `skeleton.rs`: placeholder schedulers
- `tests/` — tests on concrete workloads
- `app/` — the command-line front end (file and terminal I/O)
