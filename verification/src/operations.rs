//! Operations on lists: the single-list pipeline and the two-list
//! comparator.

pub mod compare;
pub mod single_list;
