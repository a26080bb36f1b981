# Helvum

Helvum is a patchbay for PipeWire: it shows the nodes, ports and links of the
PipeWire graph and lets the user connect and disconnect ports, group the streams of
one application, and save and restore sets of connections (presets).

This crate is written in Verus. The library in `src/` holds the logic, each public
function with a contract that Verus proves:

- `ids`, `pw_state`, `pw_events`, `pw_loop`: what the PipeWire thread remembers of the
  registry, the messages it builds from PipeWire's events, the requests it makes for
  links, and the decisions of its connection loop.
- `manager`: the graph manager, the model behind the graph view. Every message of the
  PipeWire side goes through `GraphManager::handle_message`, whose contract says, for
  each kind of message, how the model changes and which requests go back.
- `graph_items`, `canvas`, `layout`, `matrix`: nodes, ports and links of the graph; the
  drawn topology (a petgraph `StableGraph`) with path highlighting; the port grid of a
  node; the rows of the matrix view.
- `naming`, `text`, `collections`, `preset`: master port names and ids, text helpers,
  small tables, and presets.
- `laws`: properties that relate several operations.

`app/` is the program around the library: the PipeWire thread's I/O, the GTK window,
drawing, and reading and writing preset files. `tests/` runs the library on concrete
cases.
