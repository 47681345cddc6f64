# aionui_wsl

Running ACP agents inside WSL distros, with the logic proved in Verus.

- `src/wsl_path.rs` maps a host workspace path to the path a distro uses.
- `src/wsl.rs` decodes and parses what `wsl.exe` prints (UTF-16 or UTF-8,
  `--list --verbose`, the CLI probe sentinel) and redacts stderr summaries.
- `src/wsl_probe.rs` is the WSL probe as a state machine: it names each
  `wsl.exe` run to make and folds the outcomes into probe reports.
- `src/wsl_lifecycle.rs` follows an agent launched through `wsl.exe` and
  builds the command that signals its process group.
- `src/agent.rs` and `src/registry.rs` hold the agent catalog: native rows,
  rows derived for CLIs found inside distros, availability and ordering.
- `src/cli_detect.rs` answers ACP health checks from the catalog.
- `src/permission.rs` builds the runtime context and the confirmation of a
  permission prompt.
- `src/text.rs` holds the text primitives the others are proved with.

`app/` is the runtime around it: running `wsl.exe` under a timeout, the
async catalog behind a lock, `$PATH` lookups, cleanup commands, and the
serde forms of permission events.
