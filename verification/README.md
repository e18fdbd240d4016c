# irongolem

Evolutionary optimisation of directed graphs.

- `src/` is the library, verified with Verus: the arena graph and its
  structural algorithms (depths, layers, components, simple paths,
  descriptive ids, edit distance, the default validity rules, building a
  graph from stored node records), the node
  factory and random graph growth, the mutation and crossover operators, the
  equivalence search between subtrees, the sequence iterator, the adapter
  registry and the job-count rule.
- `app/` is the runtime around it: fitness values, selection, elitism,
  population sizing, the optimiser loop with its timer, evaluation over
  threads, histories as JSON, and the file logger.
- `tests/` exercises the library.
