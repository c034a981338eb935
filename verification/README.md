# snowcap

A verified library for synthesizing network-wide configuration updates: it models a network's
configuration, its devices and BGP sessions, hard policies written in linear temporal logic,
the analysis of transient behavior, and the permutators that walk through the orders in which
configuration changes can be applied.

- `src/` is the library, verified with Verus.
  - `netsim/`: configurations and their differences, route maps, routers and the network.
  - `hard_policies/`: conditions, LTL formulas with their full and partial verdicts, and the
    transient-behavior graphs.
  - `modifier_ordering/`, `permutators/`: orderings of modifiers and the permutators, with the
    laws on what a run of each returns (`permutators::lex_count` counts the lexicographic one).
  - `soft_policies/`: what the soft policies count.
- `app/` holds what stays outside the verified library: the text forms of the network's values
  and the floating-point costs of the soft policies.
- `tests/` runs the library on concrete values.
