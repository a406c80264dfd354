//! A persistent, monoid-augmented binary sequence structure: sequences whose
//! elements project into an associative measure, held in a binary tree that
//! caches the measure of every subtree. Concatenation walks the facing
//! spines, `uncons`/`unsnoc` peel one element off either end, and `split`
//! partitions at the boundary where a monotonic predicate over the running
//! prefix measure first becomes true. On top sits a rope of text chunks whose
//! measure tracks byte length, character count and line-break count, with a
//! chunk-merging policy on concatenation that bounds fragmentation.

pub mod measure;
pub mod text;
pub mod tree;
