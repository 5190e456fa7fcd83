# GMod Manager

Manages Garry's Mod modpacks: presets of Workshop mods, binds, console settings and config
files, applied to a local Garry's Mod installation with a backup that an undo restores, and an
optional compressed library of mods so that switching presets does not mean downloading again.

## Layout

- `src/` is the library, verified with Verus. Every function there carries a contract:
  - `model`, `validate`: presets and the checks a preset must pass before it is saved or applied.
  - `config`, `preview`: the files an apply writes (the Workshop bridge in GMod's menu, the
    disabled-mods list, the managed block in `autoexec.cfg`, `gmm_active.cfg`, mapped files)
    and the script of the GMod Manager tab.
  - `reapply`: a second apply of the same preset writes nothing new.
  - `share`: the ZIP a preset is shared as, and the preset JSON read back from an imported file.
  - `apply`: the preview of an apply, the check that nothing changed since, the library work for
    a preset, the backup records and what an undo restores.
  - `library`: the mod library and the plan that decides what Steam keeps, what is stored and
    what is unpacked.
  - `gma`: the header of GMA addon archives, read as it streams in.
  - `details`, `scan`, `json`, `workshop`: Steam's Web API answers, Workshop pages, searches,
    required items and collections; the network requests are handed in as closures that return
    the answers' text, which the library reads as JSON through `serde_json`.
  - `presets`, `status`: new and imported preset IDs, adding mods, how mods are described and
    which ones a search of the mods list shows.
  - `game`, `update`: Steam's library folders and the game's configs; the self-updater's checks.
  - `idmap`, `order`, `text`, `utf8`: maps keyed by IDs, string order, text and UTF-8 helpers.
- `app/` is the command-line program around it: files, network, processes, compression,
  and the (de)serialization of the app's own records.
- `tests/` run the library on concrete values.
