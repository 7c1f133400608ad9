# boldify

Converts Markdown or HTML into Unicode-styled text — bold, italic,
underline, strikethrough, highlight (overlined, framed by 〚 〛), bullet and numbered lists —
as it is pasted into posts that do not render markup.

The library is written in Verus: every function states its behaviour in
`requires` / `ensures` over mathematical models (`Seq<char>` for text, a
`NodeView` tree for the syntax tree), and Verus proves it.

## Layout

- `src/` — the verified library
  - `ast.rs`: the syntax tree and its model
  - `inline.rs`, `markdown.rs`: the Markdown parser (one line of inline
    markers, then blocks and lists)
  - `html.rs`: the HTML parser (a tag stack over the input)
  - `syntax.rs`: the `Parser` trait and the supported-symbol listings
  - `handlers/`: the styles — letter tables for bold and italic (with a
    hundred accented Latin letters of a dozen languages), combining
    marks for underline, strikethrough and overline, all applied grapheme
    by grapheme
  - `converter.rs`: rendering of a tree
  - `service.rs`: syntax selection, size limit, parse and render
  - `api.rs`, `mcp.rs`: what the HTTP functions and the MCP server decide
  - `text.rs`: character-level helpers
- `tests/` — tests of the library
- `app/` — the programs: the MCP server (stdin/stdout or HTTP) and the two
  AWS Lambda functions (`POST /convert`, `GET /syntaxes`)

## What is proved

Besides the exact result of each function (the parsers' output trees and
error positions, the rendered text, the service's answers), the library
proves properties such as: rendering a list of roots is the concatenation
of their renderings; every style keeps spaces and line breaks; bold and
italic differ on every ASCII letter; a plain line parses into one text node
in both syntaxes, so that plain text converts to itself; `**w**` and
`<strong>w</strong>` convert to the same text; plain Markdown lines convert
to themselves joined by line breaks (blank lines kept between them, dropped
at both ends); inline output never holds a list item, an empty text node or
two adjacent text nodes, and its node identifiers are exactly those handed
out, one each; a heading, or an unsupported
first tag, is refused with its position; blank content converts to the
empty text and oversized content is refused, whatever the syntax name.

What is not proved is what the outside code does: the Unicode grapheme
segmentation of `unicode-segmentation`, `str::to_lowercase`,
`char::is_alphanumeric`, `char::from_u32` and `String::push` are called
through small trusted wrappers whose contracts state what their
documentation promises.
