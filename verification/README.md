# dprintx

A wrapper around [dprint](https://dprint.dev/) that picks a dprint config per file and proxies the language server
protocol to one dprint backend per config.

The decisions are a library under `src/`, written and proved in [Verus](https://github.com/verus-lang/verus). It reads
no file, starts no process and holds no socket: it takes plain values and gives plain values back, and says in its
contracts what they are. `app/` is the ordinary Rust around it that does the reading, starting and writing.

| Module        | What it decides                                                           |
| ------------- | ------------------------------------------------------------------------- |
| `cli`         | which command a command line asks for                                     |
| `jsonc`       | how comments and trailing commas leave JSON text                          |
| `jsonc_laws`  | that this keeps the value of a well-formed document                       |
| `json`        | JSON values: parsing through `serde_json`, members, equality, printing    |
| `config`      | profiles, match rules and paths of `dprintx.jsonc`                        |
| `content`     | which profile the content of a file picks, through `regex`                |
| `local`       | which `dprint.json` governs a directory, and how it merges with a profile |
| `excludes`    | which files a config excludes, through `ignore`                           |
| `repo_config` | whether a repository excludes, owns or leaves a file                      |
| `frame`       | messages on the wire: `Content-Length`, an empty line, the body           |
| `uri`         | paths and extensions of document URIs                                     |
| `message`     | the parts of language server messages that matter                         |
| `step`        | what to do, and what follows from the outcome                             |
| `proxy`       | what a message from the editor asks of which backend                      |
| `proxy_laws`  | what holds of the proxy, whatever is sent                                 |
| `text`, `path`, `file_path`, `assoc` | texts, Unix paths as text and as bytes, lists of named values |

Proof functions whose name starts with `law_` state what holds of several functions together.
