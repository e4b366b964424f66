mod btree;
mod item;
mod layout;
mod node;
mod order;
mod sequence;

pub use crate::btree::{
    lemma_distinct_puts_count, lemma_last_put_wins, lemma_never_put_absent, lemma_repeat_keeps_count,
    Btree,
};
pub use crate::item::KeyValue;
pub use crate::layout::{after, before, interleave};
pub use crate::node::{Node, PutResult};
pub use crate::order::{lex_from, lex_less, same_key, Comparable};
pub use crate::sequence::{has_key, place, put_into, sorted};
