# midi_access

Shared foundation for a family of MIDI-device **access** tools. Implement one trait
— `Device` — and every device gets the same subcommands, the same catalog JSON
shape, the same name-number resolution and the same authoring tools.

The library under `src/` is verified with Verus: every function states what it
returns, and what the library promises as a whole stands there as proof functions.
It touches no port, no file and no clock.

| Module | What it is |
|--------|------------|
| `value`, `yaml`, `json` | Documents, what they mean, and how they read as YAML and JSON. |
| `meta`, `catalog`, `device` | Parameter metadata, value catalogs, and the `Device` trait. |
| `resolve`, `merge` | Value names to numbers and back; partial presets over a baseline. |
| `codec` | The recurring SysEx encodings: centred-signed, 14-bit, nibbles, ASCII, checksum, reserved bytes, framing. |
| `midi` | Choosing ports, reassembling frames, collecting an answer. |
| `engine`, `output`, `exit_codes`, `yaml_io` | The subcommands as steps: what to print, and what to do next. |
| `handle`, `search`, `plan`, `tools` | What a tool can ask of a device, and how a document gets on and off it. |

Trusted are the calls into `serde_yaml` (in `yaml`), into `serde_json` (in `json`),
and a few of the standard library (in `text` and `midi`); each says in its comment
what it claims.

`app/` holds the programs around the library: the command line (`clap`), the MIDI
ports (`midir`), and the MCP server (`rmcp`). `tests/` runs the library against a
fake device.

## Adopting it

Implement `Catalogs` for your lookup tables and `Device` for your device. The spec
functions of the two traits name what each function answers; a device that is
verified itself defines them, one in ordinary Rust leaves them out. Then `main` is
one line: `cli::run::<MyDevice>()` or `mcp::serve::<MyDevice>()`. Two functions of
`Device` have a default: override `accepts` where a file may be of a kind and yet
not encode, and `store` where the device can save its working memory to a slot.
