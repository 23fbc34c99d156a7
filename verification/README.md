# Salvaê

Save-sync for co-op games: a group of friends shares one private Discord
channel that holds each game's saves. The library decides when a member's
save is pulled or pushed (and when a push would overwrite a save the member
has not seen), packs, compresses and encrypts saves with a key derived from
the group password, and splits them into attachment-sized chunks.

## Layout

- `src/` is the verified library (Verus). Every function there carries a
  contract, and Verus proves all but the trusted wrappers named below:
  - `chunk`, `pack`, `compress`, `cipher`, `seal`, `seed`, `hash`, `kdf`:
    the save-blob pipeline and its file format; the round trips
    (unpack after pack, open after seal, join after split) are proved.
  - `engine`, `sync_state`, `version`, `marker`: the sync engine's
    decisions (pull, push, conflict, resolution), the per-game synced
    version, and the "currently playing" markers.
  - `config`, `strmap`: groups, secrets and invites.
  - `vdf`, `steam`, `epic`, `game`, `manifest`, `save_dir`, `candidate`,
    `snapshot`, `roots`, `paths`, `text`: finding installed games and their
    save folders.
  - `discord`: reading the Discord REST API's JSON and deciding retries.
  - `agent`: which group a game belongs to and what the agent reports.
- `app/` is the program around it: files on disk, HTTP calls, the
  environment, Windows data protection (`protect`/`unprotect`), and `main`.
  `main` loads the configuration (secrets are kept in memory only), lists
  the installed games with their save folders, and reports who is playing;
  it does not run the pull-on-open / push-on-close loop, which needs the
  save vault and the process watcher that this repository does not hold.
- `tests/` runs the library on concrete values.

Calls into outside crates (AES-GCM, Argon2, zstd, BLAKE3, base64, hex,
getrandom) sit behind small trusted wrappers whose contracts state what the
crates document or their source shows.
