# ascii-rat

Scripted terminal recordings. A script in YAML says what to type, which keys to press and how long
to wait; performing it gives an asciicast (version 2) of what the terminal showed. A live session
can be captured the other way round, as a script.

- `src/` is the library. Its functions carry contracts, and the `law_` functions state what holds
  across several of them.
  - `script`, `actions`, `filters`, `yaml`: scripts and how they are read
  - `perform`, `pace`, `escapes`, `keys`: performing a script, step by step
  - `pty`, `utf8`, `queries`, `terminal`: what the terminal sends and how it is answered
  - `cast`, `castfile`, `util`: recordings, their file format, lists of their markers
  - `decoder`, `emit`, `capture`: live sessions as scripts
  - `json`, `decimal`, `text`, `messages`: what the others are built on
- `app/` is the program: `bard` performs scripts, `scribe` captures sessions. It talks to the
  terminal, the clock and the file system.

Times are whole nanoseconds throughout.
