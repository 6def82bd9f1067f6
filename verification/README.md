# ctxlint

A linter for agents context, `AGENTS.md` and `SKILL.md`: it validates skill
front matter, finds references to files that do not exist, and holds files to
their token budgets. The library is written in Verus: its functions state in
their contracts what they return, and the contracts are proved.

## Layout

| Module | What it holds |
| --- | --- |
| `lint` | `Linter`: the rules applied to a file |
| `report` | what each rule says of a file, as a specification |
| `laws` | what holds of every run: which rules are reported when, what `strict`, `disabled` and the budgets change, that no file outside the linted tree is asked for |
| `rules` | rule ids and report order |
| `reference`, `patterns`, `fence` | file references in markdown |
| `path` | lexical path handling |
| `parse`, `discover`, `tokens`, `config`, `finding` | the data the linter works on |
| `text`, `format` | text and number primitives |

`app/` is the program around the library, for Unix: it reads files, has their
YAML parsed, and looks up the files that are referred to. It takes paths and the
flags `--max-agents-tokens`, `--max-skill-tokens`, `--max-skill-name-tokens`,
`--max-skill-description-tokens`, `--disable`, `--strict`, `--quiet` and
`--format` (`text` or `json`).

A run over one file has three steps. `Linter::references` lists the files that
the text refers to, the caller finds out which of them exist, and
`Linter::check` returns the findings.

## What is trusted

- `regex` decides which names and URLs match and finds links and code spans
  (`patterns`). The contracts say what each of the four expressions finds.
- The standard library's `Debug` quotes text in messages (`format::quote`).
- `String::push` appends a character (`text`).
- The standard library's strings and vectors, as vstd specifies them.

Paths are read as Unix writes them. Nothing is promised of the numbers that a token
counter gives; what is proved holds whatever they are.
