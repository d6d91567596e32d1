# nn_from_scratch

A small neural network built from nothing, with its integer core proved
correct in Verus.

- `src/rng.rs`: the xorshift64* generator that seeds the weights. Its state
  is never zero, outputs are a function of the state alone, and the low bit
  of a seed is ignored.
- `src/idx.rs`: the IDX format MNIST ships in: big-endian header fields,
  image and label files, every error a file can have and the order in which
  they are reported.
- `src/matrix.rs`: the row-major layout of a dense matrix, generic in its
  element type: construction, element and row access, transpose (its own
  inverse), row gathering.
- `app/`: everything that computes in floating point (activations, losses,
  neurons, layers, matrix arithmetic, pixel scaling, float draws) and the
  program that trains a neuron on AND and XOR.
