# gradlens

A verified library for reviewing Android Gradle version-catalog dependencies,
with the `gradlens` command around it.

`src/` is the library, written in Verus with its contracts proved:

- `catalog` normalises `[libraries]` entries (string coordinates, `module`,
  `group` plus `name`, inline, rich and referenced versions);
- `changes` compares a catalog with a baseline catalog;
- `gradle` frames the inspection payload in Gradle's output, checks the
  decoded graph and resolves configuration selectors;
- `graph` maps catalog libraries onto Gradle's resolved graph with each
  library's transitive dependency tree;
- `releases` decides how release notes are found (AndroidX pages, repository
  tag pages to verify, generic fallback);
- `plain` renders the plain report and its summary;
- `inspect` assembles comparison results;
- `tui::app` is the interactive browser's state machine: which key does what
  (`Tab`/`Shift+Tab`, arrows or `j`/`k`, `/`, `r`, `?`, `Esc`, `q`, and `e` to
  export the active inspection) and how each action changes the state;
- `export` names exported report files;
- `text` and `order` hold the string and ordering specifications.

`app/` is the program: command line, files, `git`, the Gradle Wrapper and its
init script, HTTP verification of release pages, TOML/JSON decoding and the
terminal interface.
