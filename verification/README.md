# process_optimizer

A temporary, user-approved game-session optimizer: while a game runs, background apps the
user explicitly selected get lower scheduling priority or a normal close request, and every
change is recorded before it is made so that it can be undone after a crash.

The library in `src/` holds the platform-independent logic, each function with a contract
proved by Verus:

- `model`, `policy`: process identities, protected names, canonical paths, plan validation,
  and the process family a game keeps out of any plan.
- `engine`, `reopen`, `journal`, `integrity`: write-ahead apply and compare-and-restore
  against an abstract native adapter and journal, and structural validation of stored records
  and of record updates.
- `manual`, `profiles`, `applications`: recurring background-app permissions, saved recipes,
  executable groups.
- `gpu`, `report`, `update`, `advice`: counter-instance parsing, the human-readable report,
  release version and download checks, and per-app advice.
- `windows`: the decisions behind the native adapters and windows: startup entries (reading,
  conflict-safe disable and restore), authorisation at the moment Game Mode is switched on,
  the session worker's steps, process protection checks, relaunch checks and the GUI
  executable header, the update address check, the Settings app list with its controls and
  texts, the Settings panel's startup buttons and process report order, the On/Off window,
  the Advanced window's list, status and start checks, the updater's command line, and the
  rules for the recovery directory.

`app/` is the command-line program around the library: the SQLite store with its JSON
encoding, file reading for download checks, and the floating-point GPU summaries.
