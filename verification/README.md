# hermit_tableau

The storage and bookkeeping core of a hypertableau reasoner, written in Verus
and verified against its contracts.

- `tuple_index`: a trie over the key paths of tuples, with bucketed child
  lookup, insertion, removal with pruning, and prefix retrieval. Its contracts
  speak of the ordered entries (key path, tuple index); the laws say that a
  read gives back what indexing recorded and that removal undoes indexing.
- `tuple_table`: fixed-arity tuples in one flat, growable slot vector.
- `extension_table`: the assertion tables built from the two above: storing,
  core flags, the delta marks, branching points and backtracking, and indexed
  retrieval. `lemma_backtrack_undoes_stores` states that backtracking gives
  each index back its entries from the branching point.
- `dependency_set`: permanent (interned, strictly descending) and union
  dependency sets and the factory that interns them, over a `rustc_hash`
  hash map.
- `ground_disjunction_header`: the grouped, backtracking-ordered disjuncts.
- `hyperresolution`: the manager that interns ground-disjunction headers by
  their head predicates, one header per predicate sequence.
- `description_graph_manager`: the description-graph tuples, one extension
  table per graph, and each node's occurrences in them, kept as linked
  records with a free list in one flat store.
  `lemma_removing_added_occurrences_restores` states that taking back the
  occurrences a stored tuple gave its nodes restores every node's list.
- `extension_manager`: retrievals and containment checks over an extension
  table that skip tuples whose nodes are no longer active.
- `merging_manager`: the choice of merge direction between two nodes.
- `node` also holds the walks over the node arena: the canonical node at the
  end of a merge chain (with the dependency sets gathered along it), proper
  ancestors, and the lookup of a node by id along the tableau's node list.
- `branching`, `existential_expansion`: ground-disjunction bookkeeping and the
  node tests of the nominal-introduction and expansion rules.
- `interrupt_flag`: explicit and timed interruption of a reasoning task.
- `reasoning_task_description`, `text`: task messages.
- `node`, `node_type`, `object`, `blocking_strategy`, `blocking_validator`,
  `dl_clause_evaluator`: the tableau's data types and small policies over
  them.

`tests/` exercises the library through its public interface.
