# vfbow

Bag-of-visual-words vocabularies with proofs: vocabulary trees of binary
(`u8`) or floating-point (`f32`) descriptors, the FBOW and VFBOW file
formats, vocabulary creation by hierarchical k-means, and a database of
bags of words with an inverted and a direct index.

The library in `src/` is written in Verus: every function states what it
does in its contract, and Verus proves that the code meets it and never
panics. Floating-point values never enter it: `f32` descriptors and weights
are held by their bit patterns, and the computations on them (distances
between `f32` descriptors, scores of bags of words, database queries) are
in the program around it, in `app/`, which hands the library the order of
`f32` distances as integer keys.

Layout of `src/`:

- `serde`, `convert`, `text`, `dtype`: little-endian encodings, descriptor
  names and element types
- `features`: storage of the descriptors of a vocabulary, Hamming distances,
  and queries by distances given as keys (for `f32` descriptors)
- `vocabulary`: the tree, transforming descriptors into words, reading FBOW
  and VFBOW files and writing VFBOW files
- `creator`: hierarchical k-means, the breadth-first layout of the tree,
  and the bounds that a depth limit puts on the tree
- `bow`, `db`: word counts, bags of words, grouped features, the database
- `feature_file`: the training feature files that vocabularies are made from
- `view`: listing the keys, values or items of a bag of words or of grouped
  features, sorted by key or by value

`app/main.rs` is the command-line program that creates a vocabulary from a
training feature file.
