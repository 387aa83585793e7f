//! Search for sets of five words that together use twenty-five distinct letters.
//!
//! Words are reduced to letter-presence bitmasks, the masks with exactly five
//! letters are kept as candidates, and the candidates are searched for
//! quintuples whose masks are pairwise disjoint.

pub mod decode;
pub mod filter;
pub mod mask;
pub mod mask_proofs;
pub mod search;
pub mod search_proofs;
