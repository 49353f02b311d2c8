# clai

A character-level language model on a sparse recurrent network whose wiring is
learnt along with its weights, written and proved in Verus.

- `src/` is the library. Numbers are held as bit patterns; everything that rounds
  goes through the trait `Arith`, so contracts say which operations are applied
  to which operands and in which order, for any arithmetic whose operations are
  functions of their operands.
  - `scalar`, `arith`, `random`, `parallel`, `text`, `ranking`: numbers,
    operations, the generator, threads, characters, stable ranking.
  - `config`, `data`, `graph`, `network`, `backprop`, `optim`, `rigl`,
    `checkpoint`, `train`: the model, from the corpus to generated text.
  - `effect`: what rewiring does to the function that a network computes.
  - `mlp`: a small dense network.
- `tests/` runs the library with the machine's arithmetic.
- `app/` implements that arithmetic, reads and writes files, and prints.
