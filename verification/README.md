# turf

A toolkit for GitHub CODEOWNERS files: it formats and sorts them, and answers who owns
what. The library under `src/` is verified with Verus; `app/` is the command line program
around it.

## Layout

- `text`: strings as sequences of characters.
- `ast`: the parser. A file is groups of comments and rules.
- `formatter`: owners aligned in a column, one blank line between groups.
- `pattern`, `order`, `sorter`: which rules may change places, and the smallest order.
- `matcher`, `limits`: patterns as globs, how large they may be, and last-match-wins lookups.
- `numbering`, `who_owns`, `disputed`, `commands`: what the commands of the program compute.
- `roundtrip`, `reading_laws`, `sort_laws`, `ownership_laws`: what holds of all of these
  together.

## What is proved

- Each function returns what its contract says, and none of them panics.
- Comments are preserved as written. Formatted text reads back as the file that was
  formatted, and formatting it again changes nothing.
- The sorter finds the smallest order in which rules that may match the same file and have
  different owner sets stay in place.
- Patterns that the sorter takes apart match no file in common, and sorting and formatting
  do not change the set of owners of a file.
- A rule is reported as dead exactly if no file that it matches has the owners it names.

## What is trusted

Globs are compiled and matched by the `globset` crate. The wrappers in `matcher` state what
is relied on. A backslash separates the components of a path on some machines and escapes
the next character of a pattern on the others, and which of the two holds is not claimed.
The ownership laws are stated for one machine, with whatever patterns and paths, and, for
patterns and paths without backslashes, across machines.
