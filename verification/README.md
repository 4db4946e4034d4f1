# noodle

A word-puzzle search engine: a query of pattern expressions (character
classes, alternatives, repetitions, anagrams, fuzzy matching) is matched
against a word list, first word by word, then as phrases of several words.

The library in `src/` is written in Verus, and its contracts are proved:

- `bitset`: fixed-size bit sets, in one, two and three dimensions.
- `words`: the 28-symbol alphabet, and words as symbol sequences.
- `parser`: the expression grammar, as a function on characters.
- `expression`: expressions compiled to automata, their optimization, and the
  fuzzy transition tables.
- `text`: how symbol sets, syntax trees and expressions are written out.
- `query`: query lines, macros, options and anagram expansion.
- `matcher`: word matchers, the single-word stage and the tables for phrases.
- `search`, `phrases`: the phases of the phrase search and the search itself.
- `wordlist`: reading a word list line by line, and grouping words into
  tranches.
- `evaluator`: the evaluation of a query over a word list, one answer per call.

`app/` is the command-line program around the library. `tests/` holds the
tests, run against the compiled library.
