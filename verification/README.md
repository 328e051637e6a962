# oh-my-harness

`omh install [repo] [-d <project-dir>] [--force]` installs the skills
(`skills/<name>/` folders with a `SKILL.md`) and agents (`agents/*.md`) that a
repo ships into opencode's roots: `~/.config/opencode/{skills,agents}`, or
`<project>/.opencode/{skills,agents}` with `-d`. `repo` is a git URL or a local
directory and defaults to the oh-my-harness repo. Existing skills and agents
are skipped unless `--force` overwrites them.

Layout:

- `src/` is the library, with its contracts and proofs: name validation (`skills`),
  frontmatter parsing (`skills`), the scans of `skills/`, `agents/` and
  `commands/` (`skills`, `listing`, `agents`, `commands`), install locations
  (`target`), string helpers with their specifications (`text`), and the
  install protocol as a state machine (`install`).
- `app/` is the `omh` program: argument parsing, the file system and git work
  that the install state machine asks for, and printing.
- `tests/` runs the library on concrete inputs.
