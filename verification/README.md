# dustpan

The decision logic of a disk cleaner for Windows, written in Verus, and the `dpan` program around it.

- `src/` is the library. It decides what may be deleted, what is asked and what is shown, and every
  function carries a contract that Verus proves. It reads no file and deletes nothing itself: what the
  disk, the registry and the user say is handed to it, as values or as closures.
- `tests/` runs the library on concrete inputs.
- `app/` is the program: arguments, terminal, file system and registry.

The centre of it all is the deletion engine (`src/clean.rs`) behind the safety guard
(`src/safety.rs`). The preconditions on the functions that it is handed say how far it may call them:
deletion only on a path that it was asked to clean (the target itself, an entry that its directory
listed, a path that failed before, a directory that was offered), only once that path was read, only
outside a dry run, only where the whitelist does not keep it and only where the guard lets it through;
deletion with administrator rights only after the plain deletion was denied. The postconditions say
that every attempt has one record, that nothing else is recorded, and that each record was handed to
the function that writes the audit log; writing it is left to the program. How often a function is
called on a path is not stated.

| Module | What it holds |
| --- | --- |
| `safety`, `paths` | which paths may be deleted, and what the whitelist keeps |
| `targets`, `glob`, `plan` | the catalog of caches, its expansion, and the plan that is cleaned by default |
| `clean`, `session`, `scan` | cleaning, its statistics and records, and the course of a session |
| `apps`, `sources`, `steam`, `inventory`, `picker` | installed applications, where they are found, and the list that shows them |
| `uninstall` | removing an application and what it leaves behind |
| `ctxmenu`, `reg` | entries of the context menu, and registry values |
| `analyze` | the disk usage explorer |
| `menu`, `settings`, `cli`, `term`, `ui` | the menu, the settings, arguments, keys and output |
| `calendar`, `encode`, `json`, `number`, `sort`, `text`, `version`, `breaks` | what the others build on |

What is believed without proof is small: `String::push`, `str::to_lowercase`,
`String::from_utf8_lossy`, `String::from_utf16_lossy`, and the path functions of the standard library
(`Path::components`, `Path::is_absolute`, collecting a `PathBuf`).
