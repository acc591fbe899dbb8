# bears

A file-based task tracker: tasks are markdown files with YAML frontmatter
under `.bears/`, linked by dependencies and grouped under epics.

- `src/` is the library, verified with Verus: task values and their file
  format, the dependency graph (cycle checks, effective priorities, ready
  tasks, execution order), the task operations, prefix resolution, the
  merge of the MCP server entry into a harness's JSON configuration, and the
  state machine, event-loop step and text of the terminal interface.
- `tests/` holds the tests of the library.
- `app/` is the `bea` command line: argument parsing, reading and writing
  task files, running the editor, and terminal output.

Harness integration files are written from the template texts in the
templates directory (`$BEARS_TEMPLATES`, default `templates/`). `bea init
--copilot` and `--codex` use the library's built-in registry, which names
the templates by harness (for example `copilot/mcp.json`); `--harness
<label>` uses a harness listed in `harnesses.json` of that directory (a
`label`, a `name`, its `files` with `target` and `template`, and an optional
`mcp` entry with `target`, `server_key` and `seed`).
