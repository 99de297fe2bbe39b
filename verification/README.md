# dsync

A directory sync tool: it brings a source directory and a remote in line with each other, where a
remote is a directory on this machine or, over SSH, on another one. Changed files travel as block
deltas, optionally compressed, and count as arrived only when the BLAKE3 digests of both sides
agree.

The tool is written in Verus. `src/` holds everything that decides or computes, as a library whose
functions carry contracts that Verus proves:

| Module | What it is about |
|--------|------------------|
| `config` | the configuration of a source directory, named remotes, reading a remote's text |
| `ignore_rules`, `ignore_edit` | which paths stay out of a sync, and editing the patterns |
| `delta`, `hash` | signatures, deltas, block sizes, digests |
| `sync::scan`, `sync::plan` | the two trees by path, and what has to be done on the receiver |
| `sync` | a run as a sequence of steps, and what it came to |
| `sync::outcome` | what the receiver has after a run |
| `sync::transfer` | the transfer of one file, and adding up how the files went |
| `transport::local` | listing a tree, where and how files are written |
| `transport::protocol`, `server` | messages, frames, and the agent that answers them |
| `transport::ssh`, `transport::ssh_config` | whom to connect to as whom, and the command for the agent |
| `cli`, `progress` | what a command line means, and what the user sees |
| `os_path`, `path`, `text`, `error` | what the others are made of |

Proof functions whose names start with `law_` state what holds across functions: that after a run
the receiver has the sender's files and nothing extraneous, that a second run finds nothing to do,
that a frame gives back what was put into it, and so on.

`app/` is the program around the library: arguments, files, the network and the terminal. `tests/`
runs the library on concrete values.
