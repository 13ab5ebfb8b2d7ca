# md_html

A small markdown reader, verified with Verus. Two dialects turn text into
block tokens (headers, code blocks, divider lines, list items, paragraphs)
holding inline tokens (emphasis, links, images); `converter::to_html` renders
the tokens of the `MdParser` dialect as HTML.

- `src/` is the verified library. Each line pattern and inline pattern of the
  grammar is a spec function over characters, decided by an executable
  function proved equal to it; each parser is a state machine whose `step`,
  `run` and `parse_outcome` spec functions its executable code is proved to
  follow. Where reading the text around a span would have to cut a UTF-8
  character in two (or, in `Parser`, go backwards), the spec gives `None`:
  `try_parse` returns `None` there, and `parse` requires that it does not
  happen. Laws (`law_*` proof functions) state what holds across calls.
- `tests/` checks scenarios, the laws on concrete values, and agreement of the
  matchers and of both parsers with the `regex` crate on generated inputs.
- `app/main.rs` is the command line program: it reads a file and prints the
  tokens of `MdParser`.
