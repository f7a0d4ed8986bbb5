//! Scene-graph core: a generational handle pool, node variants, nodes and a
//! tree of nodes whose parent and child links always agree.

pub mod handle;
pub mod pool;
pub mod kind;
pub mod node;
pub mod graph;
pub mod record;
