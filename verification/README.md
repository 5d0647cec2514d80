# sbox

Runs OMP inside a project-scoped Bubblewrap sandbox: the project is writable, the
runtimes that OMP and the configured MCP servers need are mounted read-only, and
everything else of the user's home stays outside.

- `src/` is the verified library. It decides; it does not touch the host. A
  decision is taken over recorded answers of the host. Where it lacks one it hands
  out the question, and once the answer is recorded it is taken again from the
  start. A run is a machine: each state calls for one act, and the report on the
  act leads to the next state.
- `app/` is the program around it: it parses the command line, answers questions,
  performs acts and exits with the code that the library gives.
- `tests/` runs the library against a host that is held in memory.

| module | what it decides |
| --- | --- |
| `bytes`, `text`, `path`, `views` | byte strings, numbers in text, Unix paths |
| `error` | failures as chains of messages |
| `host`, `questions` | answers of the host, and what is asked of it |
| `env`, `cli` | environments, and the launch that a command line asks for |
| `config`, `glob` | the user's rules for projects, and the patterns in them |
| `json`, `servers` | documents, and the MCP servers that they declare |
| `resolve`, `shebang`, `layout`, `roots`, `mcp` | where programs are and what has to be mounted for them |
| `types` | what a launch is made of |
| `command` | the Bubblewrap command of a launch |
| `preflight`, `sandbox` | the check before a run, and the run |
| `program` | the program as a whole |
