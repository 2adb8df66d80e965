# trafico_aereo

An air-traffic radar that keeps flights in an AVL tree ordered by altitude,
verified with Verus.

- `src/arbol.rs`: the `Vuelo` and `Nodo` types, the model of a tree (its
  height, its flights by altitude) and the AVL invariant `es_avl`, with the
  bound on the height of an AVL tree.
- `src/rotaciones.rs`: height bookkeeping, the single and double rotations
  (as functions and as spec functions), and lemmas on how they rebalance a
  node.
- `src/insercion.rs`: insertion; `tras_insertar` states the tree it gives.
- `src/eliminacion.rs`: removal; `tras_eliminar` states the tree it gives.
- `src/operaciones.rs`: lookup, the highest flight of a subtree, and the
  count of flights in an altitude range.
- `src/leyes.rs`: properties of the radar as a whole.
- `app/main.rs`: the demo program that prints each phase.
