# SigTrail

SigTrail builds dynamic program dependence graphs of hardware designs. It reads a static dependence
graph and a simulation trace (a value change dump) and shows which executed statements the value of
a signal, or the execution of a statement, depended on.

The library under `src/` is written in Verus: every function carries a contract, and the contracts
are proved.

- `text`, `name_map`, `lists`, `index`: texts, tables and lists.
- `vcd_input`: what is taken from the `vcd` crate. Its contracts are believed, not proved.
- `simulation`, `probes`, `vcd_reader`: signal values, probe signals and the clock cycles of a trace.
- `pdg_spec`, `static_graph`: static and exported graphs.
- `activation`: which statements a clock cycle executes.
- `dynamic_graph`, `tracer`, `graphbuilder`: what a clock cycle adds to the graph, and the run over
  a whole trace.
- `groups`, `hierarchy`, `regroup`: groups of nodes by module instance, and the graph that is shown
  when some of them are collapsed.
- `app_state`, `graph_building`, `validation`: what the viewer keeps, how its graph is made, and
  tests of data that comes from outside.
- `reader_laws`, `trace_laws`, `run_laws`, `view_laws`: what holds of every cycle, graph and view.

`app/` holds the viewer around the library: arguments, files and the window.
