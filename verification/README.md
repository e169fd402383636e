# bevy_plugin_graph

Records which Bevy plugin added which plugin, and renders the result as JSON or
Mermaid.

- `src/` is the verified library: the recorded graph (`graph`), the names derived
  from a plugin's type path (`names`), the colour-slot order of modules (`order`),
  the Mermaid rendering and the JSON document (`render`), output formats
  (`format`), character helpers (`text`) and laws over sequences of calls
  (`history`). Every public function carries a
  contract over the graph's model, `GraphView`, and the laws relating the
  operations are proof functions beside them.
- `app/` is the Bevy side: the `PluginGraphExt` extension trait on `App` and
  `SubApp`, the resource that holds a world's graph, JSON serialization with
  `serde_json`, and writing files.
- `tests/` exercises the library on concrete graphs.
