# ragnarok_stack

The mod system of a Ragnarok Online server stack, as a verified library:
which mods are installed and on, the order their layers apply in, how two
mods' copies of one rAthena table or conf file combine, what the server's
log says about their tables, and the rules for laying client assets down
where the game client looks for them.

- `src/` — the library, verified with Verus. Every public function states
  its result in its contract; the public proof functions state what holds
  across calls (files read back as written, orders respected, grants never
  repeated).
- `tests/` — scenarios run against the compiled library.
- `app/` — the command line around it: directories, files, the environment,
  the docker client, JSON text, and the mod options that carry
  floating-point values.

Two outside crates are used:

- `encoding_rs`, by the library, for the Korean code page the game client
  spells its file names in (`assets::client_path`): a Hangul syllable's two
  CP949 bytes come from its EUC-KR encoder, behind one trusted wrapper.
- `serde_json`, by `app/` only, to read JSON text (`mod.json`,
  `settings.json`, the load report) into the library's own `json::Json`
  values, which the library then checks.
