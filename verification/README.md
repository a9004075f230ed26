# Labric Sync

A desktop client that watches one folder, reports what happens in it, and queues
the files it finds for upload.

`src/` is the library, `labric_sync`: everything the client decides, written in
Verus and proved.

| module | decides |
| --- | --- |
| `watch` | who owns the watch when requests overtake each other |
| `start` | the steps of starting a watch, from the first check to the last queued file |
| `scan` | how a folder is walked |
| `follow` | what the steps of a start leave in the backlog and the queue |
| `backlog` | which events are kept for a front end that listens late |
| `upload`, `paths` | which files are queued, and what they are called |
| `resume` | how the watch of the previous run is taken up again |
| `device` | the device's ID, fingerprint and particulars |
| `heartbeat` | what a heartbeat carries |
| `shell` | what the tray does, and when the client exits |
| `events` | what the front end is told, and what a watcher's notification amounts to |
| `text` | strings |

The functions called `law_..` state what holds of several calls together, such as
that a start which was overtaken changes nothing any more, and that one which was
overtaken before its first step leaves no trace at all.

Two functions in `device` are taken on trust: the SHA-256 hash (`sha2`) and the
random UUID (`uuid`).

`app/` performs the decisions with directories, watchers, the settings store and
windows; `tests/` runs the library.
