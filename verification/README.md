# PS2 backup tool

Puts PlayStation 2 games on storage devices for Open PS2 Loader: whole, in the directories `CD`
and `DVD`, or split into chunk files that are listed in `ul.cfg` (the USBExtreme format).

- `src/` is the library. It decides: what the bytes of a game list and of an image mean, how an
  image is parted and verified, what each file is called, what a rename, a repair or a rewrite
  does next. Every function is verified with Verus against its contract,
  apart from the few that only call into the standard library or another crate: the contract of
  each of those is believed, and its comment says what it claims.
- `app/` is the desktop application around it. It reads and writes files, runs programs, asks the
  operating system, and shows the window.
- `tests/` runs the library on concrete values.

| Module | What it is about |
|---|---|
| `ulcfg` | the game list `ul.cfg` |
| `opl_crc` | the checksum of a game's name, after which its chunks are named |
| `iso` | what an image is |
| `split`, `checksum` | splitting an image and verifying the chunks |
| `chunks` | the chunk files on a device, and whose they are |
| `games`, `manage` | listing, checking, sorting, deleting and renaming games |
| `process` | putting a game on a device |
| `repair` | bringing games over from an older layout |
| `extents`, `defrag` | fragmented files |
| `restore`, `copy` | restoring a backup folder |
| `filesystem`, `lsblk`, `format` | devices |
| `settings` | the settings |
| `text`, `order` | text, numbers and sorting |
