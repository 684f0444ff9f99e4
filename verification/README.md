# tohru

`tohru` mounts images: trees of files that are made of layers, each a directory of the store and
rules that say which of its files are left out, linked or copied. What stood at the place of a
mounted file is kept in the store and given back when the image is unmounted. A mount, a refresh
or an unmount may be interrupted at any time; the next command brings it to an end.

## Layout

- `src/` is the library. Every decision of the program is taken here and proved.
- `app/` is the program: its arguments, the machine that does what the library asks for, and the
  written forms of manifests, activations and journals.
- `tests/` runs the library, on a machine that is held in memory.

## How the library is stated

The library asks a `Host` for each single act on the world outside (`host`), and promises nothing
about what is answered. What an operation asks for, in which order, and what it makes of each answer
is a `Program` (`program`); the contract of an operation says that the questions put and the answers
got are a run of its program, and that its result is the result of that run (`session`).

- `bytes`, `path`, `error`, `message`: texts, paths, failures and what is said of them.
- `tree`, `glob`, `rules`, `projection`: from layers and their rules to the tree of an image.
- `entry`, `placing`, `transition`, `atomic`: looking at entries, and changing them.
- `store`, `backup`, `state`: what is kept in the store, and what is mounted.
- `command`: the commands.

The laws stand on top. `reason` says what it means that a program meets a statement about a world,
and that it upholds one all the while; `disk` is the world of a file system, on which any act may
fail.

- `managed`: what belongs to what is managed, and that looking tells whether anything else is there.
- `standing`, `placed`, `turned`, `backed`: entries are told, placed, changed and backed up right.
- `mounted`, `compiled`, `rooted`, `cycle`, `returned`: mounting, refreshing and unmounting, and that
  unmounting gives back what stood before.
- `quiet`, `guarded`, `whole`, `steady`: what is left as it is, and what is never seen half done.
- `spared`: files that are not managed survive every command, also where it is interrupted.
- `swept`: nothing is left over of roots and of what was being prepared.
- `recovered`, `interrupted`, `several`: recovery, after one image or several were interrupted.
- `commanded`, `established`: what the commands promise.
- `told`, `shown`: the order of what the commands say, and that it is true.

The state of an image may lie below its root, as it does by default where the root is the home
directory. The laws ask only that the directory of the state does not belong to what is managed
(`backed::clear_of`).
