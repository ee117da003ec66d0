# karamd

A task vault kept as Markdown files with YAML frontmatter: recurring-task
generation, dependency graphs, next-task recommendations, validation,
rescheduling by due date, and autonomous agent runs.

- `src/` is the library, written in Verus. Every function in it carries a
  contract that Verus proves; the laws of the library (a second generator run
  on the same day creates nothing, a written task splits back into the
  same frontmatter and body provided the YAML library reads back what it
  wrote (a premise about `serde_norway`, not proved here), downstream
  counts are exactly what the dependency edges reach, ...) stand there as
  public proof functions. Calls into `chrono` and `serde_norway` go through
  small trusted wrappers whose contracts say what those crates do.
- `app/` is the `karamd` command line, the web server and the process and
  file plumbing around the library.
- `tests/` runs the library on concrete values.
