//! A live, queryable view over a tabular data object: row filters, sort
//! keys, the derived row order, change detection and column profiles.
use vstd::prelude::*;

pub mod table;
pub mod text;
pub mod literal;
pub mod schema;
pub mod filter;
pub mod sort;
pub mod view;
pub mod format;
pub mod selection;
pub mod profile;
pub mod histogram;
pub mod frequency;
pub mod laws;
pub mod frontend;
pub mod session;

verus! {

/// True when a completion's sort text carries the priority marker `0-`,
/// which forces the item to the top of the list.
pub fn has_priority_prefix(sort_text: &str) -> (r: bool)
    ensures
        r == (sort_text@.len() >= 2 && sort_text@[0] == '0' && sort_text@[1] == '-'),
{
    let mut it = sort_text.chars();
    let a = it.next();
    let b = it.next();
    match (a, b) {
        (Some(x), Some(y)) => x == '0' && y == '-',
        _ => false,
    }
}

} // verus!
