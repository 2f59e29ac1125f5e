# dsh-wasm-studio

The studio behind a desktop admin panel that runs a dsh-rs agent harness with
WASM plugins mounted into it. This crate is its verified core: the state the
studio keeps and every rule it applies, each with a contract proved by Verus.

## Layout

- `src/` — the verified library
  - `plugins.rs` — the persisted plugin config (`studio.json`) and what is
    derived from it: boot plan, watch set, reload decisions, the plugin
    catalog, discovery of `.wasm` files; laws such as "stopping keeps a
    plugin listed" and "the catalog is ordered by slot"
  - `studio.rs` — the studio's runtime bookkeeping: mounted fibers, resumed
    agents, open windows, queued window params, wanted windows, the session
    cache, new session ids, fiber settling
  - `windows.rs` — plugin window labels, URLs, bootstrap scripts, the launch
    view and how a window opens
  - `chat.rs` — transcripts, titles, token usage, the session list and the
    streaming of a turn
  - `llm.rs` — the LLM settings: provider routes, settings merges, `/models`
    listings
  - `commands.rs` — the rows the panel's pages show, change events, errors
  - `json.rs`, `text.rs`, `sort.rs`, `ui.rs`, `error.rs` — the value model,
    string operations, stable orderings, UI declarations and refusals
- `tests/` — tests of the library on concrete values
- `app/` — the desktop program: Tauri commands, the harness, the WASM host,
  the file system and the network, driven by the library
