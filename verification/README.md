# Verified markdown constructs

Three constructs of a markdown tokenizer, written in Verus and proved against
their contracts:

* `construct::heading_setext`: heading (setext) underlines, and the resolver
  that turns the paragraph before an underline into a heading;
* `construct::label_end`: the `]` that closes a link or image label, with its
  resource (`(url "title")`), full (`[x]`), collapsed (`[]`), and shortcut
  reference forms, and the resolver that turns matched labels into links and
  images and unmatched label starts back into data;
* `construct::partial_space_or_tab_eol`: whitespace that may hold one line
  ending, but no blank line.

The resolver of `construct::label_end` is also proved to keep well nested
events well nested (`lemma_resolve_keeps_nesting`): links and images wrap
their label text, nested images included, and unmatched label starts become
data where they stood; and its output length is stated exactly
(`lemma_resolve_length`).

The state functions work on a `tokenizer::Tokenizer`, whose model
(`TokenizerModel`) is what the contracts speak of: each state function states
exactly how it changes the model and which state comes next.
Supporting pieces live beside them: `util::edit_map` (batched edits of the
event list, with an exact model of what applying them yields), `util::skip`,
`util::slice`, `util::normalize_identifier` (label normalization: whitespace
collapsing, then case folding through `std`), `util::nesting` (whether each
exit closes the innermost open span), and `subtokenize` (links between events
of embedded content).
