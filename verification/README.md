# NepBPE

A byte pair encoding tokenizer for Nepali text in Devanagari, written and proved in Verus.

- **Normalization.** A text is composed (Unicode NFC), folded by string rewriting rules
  (leftmost, longest pattern first), and stripped of zero width joiners. Zero width
  non-joiners stay.
- **Encoding.** Runs of one script are encoded on their own: Devanagari and Latin by longest
  match over the vocabulary, punctuation character by character, everything else as bytes in
  a printable byte alphabet. Every byte that is no graphic ASCII has a token of its own, even
  where its surface is listed as something else.
- **Decoding.** Bytes are told by the kind of their token, so decoding does not depend on the
  byte alphabet.
- **Training.** Pairs of tokens are merged, the best admissible one of the corpus first. A
  merge must stay within one script, respect the tags of its parts (a strict token never
  merges; an ambiguous one merges only as the left part, and only in a pair that is more
  frequent than the threshold), and be allowed by the paradigms of its left part.

## What is proved

- Decoding undoes encoding for every text, for an initialized vocabulary, whatever was listed
  for it, and for whatever training, tagging, saving and loading make of it.
- The pair frequencies that training keeps are exact, though they are only ever updated
  locally, and counting words first gives the same as counting them one by one.
- The merge queue, with its outdated entries, finds the same merges as a search of the whole
  corpus. The result depends neither on the order of the words nor on whether equal words are
  counted together, as long as no token without a surface stands in them.
- Every token that training adds is a legal merge, and the vocabulary never outgrows its
  budget.

Each of these is a public `law_` function beside the definitions that it speaks of.

## Layout

- `src/` is the verified library. `counting`, `training`, `greedy`, `encoding` and `lossless`
  hold the mathematics; `corpus`, `trainer`, `tokenizer` and `learning` the code.
- `app/` holds the Python bindings, file input and progress output.
- `tests/` runs the library.

## What is taken on trust

Unicode composition (the `unicode-normalization` crate), lossy decoding of invalid UTF-8, the
test for white space, and two small functions of the standard library. All of them stand in
`src/text.rs`.
