# resource-scrambler

Scrambles the event names of FiveM resources. The scripts of all resources are read, every event
name that is registered, handled or triggered on its own side gets a random UUID in its place, also
where it is triggered from the other side, and the scripts are rewritten. Events of system
resources keep their names. Beside the scripts a table of the replaced names is written, and a
resource that reports clients which still use the names of before.

```
resource-scrambler <resources-dir> [--dst <dir>] [--loader <path>] [--timings] [--quiet] [--no-clone]
```

The library under `src/` holds everything that is decided or computed, and is verified with Verus.
The program under `app/` walks directories, reads and writes files, and talks to the terminal.

| Module | What it is about |
|---|---|
| `text`, `paths`, `path_order`, `sorting` | byte strings, paths and their order, stable sorting |
| `calls`, `names`, `events` | call sites of event functions, and the names in them |
| `scripts`, `manifest`, `sandbox` | which scripts a resource has, by its Lua manifest and by its files |
| `uuids`, `replacement` | random UUIDs, and new names for old ones |
| `rewrite`, `passes`, `writer` | rewriting of scripts |
| `output` | the table of replaced names and the detector |
| `state`, `scrambler` | what a scrambler knows, and the steps of a run |
| `cli`, `timer` | arguments and timings |
| `rewrite_laws`, `gathering_laws`, `scrambling_laws`, `shared_laws`, `output_laws`, `script_laws`, `run_laws` | what holds of the steps together |

What a scrambler knows is modelled by `state::State`; the contract of every step says which state
it leads to. The central statements are `scrambling_laws::law_script_renamed`, by which a rewritten
script makes the same calls as before with new names, and `run_laws::law_run_leaves_no_name`, by
which every name at a call is then a UUID or a name of the system, unless it was only used to
trigger an event on the other side. By `run_laws::law_run_keeps_system_scripts` the scripts of
system resources keep their event names. These are about scripts that are rewritten once. A script
that runs on both sides is rewritten for the server and then for the client; the same is stated of
such scripts by `shared_laws::law_shared_script_renamed` and by the laws of `run_laws` whose names
end in `_on_both_sides`, and of scripts that are rewritten any number of times by those whose names
end in `_in_turn`.

Trusted are the contracts of the functions of `regex`, `uuid`, `mlua` and the standard library that
the library calls. Each stands beside its wrapper and says what is claimed.
