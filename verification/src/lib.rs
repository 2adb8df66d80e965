//! Air-traffic radar kept as an AVL tree of flights ordered by altitude.
//!
//! The tree is a plain `Option<Box<Nodo>>`. Its abstract value is a map from
//! altitude to flight (`contenido`); the operations insert, look up, remove and
//! count flights by altitude while keeping the AVL invariant (`es_avl`).

pub mod arbol;
pub mod rotaciones;
pub mod operaciones;
pub mod insercion;
pub mod eliminacion;
pub mod leyes;
