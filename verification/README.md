# Kalcite LSP

The language server of the Kalcite engine, with its decisions verified in
[Verus](https://github.com/verus-lang/verus).

- `src/` is the library: what is reported of a document, what is completed,
  explained and highlighted, where definitions, references and symbols are
  found, what renaming changes, and what is remembered of the documents that a
  client has open. It reads no files and speaks no protocol. Every function
  states what it returns, and the laws that relate several of them are the
  public proof functions whose names begin with `law_`.
- `app/` is the server: it speaks the protocol on standard input and output,
  reads the files of a project, and asks the Kalcite core crates to parse them.
- `tests/` runs the library.

## Positions

Offsets are byte offsets into the UTF-8 text of a document. A position that the
server sends or receives counts UTF-16 code units within its line. A position
within a character stands for the start of the character, and one beyond the
end of a line for the end of the line.

## Inputs that are not accepted

Some functions ask that an offset stands between two characters of the text, or
that the calls of a script are closed. `is_range`, `are_calls_closed`,
`are_script_calls_closed`, `are_names_in_text`, `is_script_in_text` and
`is_split_of` test this.
