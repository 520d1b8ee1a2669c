# Unigram

A unigram language-model tokenizer, written in Verus. A model is a vocabulary of tokens with
scores. It splits a sentence into the tokens whose scores add up to the largest sum, and it can
judge a sentence by several sets of weights at once, to find the set that fits it best.

- `src/` is the verified library. Scores are held as the bit patterns of IEEE 754 numbers, and
  their arithmetic is verified as well (`single`, `double`). The model is `model::Unigram`; what
  holds of it as a whole is stated in the modules whose names end in `laws`, in `agreement`,
  `forward_bound`, `optimality`, `tokenization`, `segmentation`, `ranking` and `weight_sets`.
- `tests/` runs the library on concrete values.
- `app/` is ordinary Rust around the library: floating-point numbers, files and Python classes.

Two functions on floating-point numbers are passed in by the caller: `log(1 + exp(x))`, for scores
over all segmentations, and the power of two numbers, for scores normalized by length.
