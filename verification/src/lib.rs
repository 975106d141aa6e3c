//! English text for a learner of English: a dictionary of forms that finds
//! lexical units in text, a grammar inventory addressed by hierarchical keys,
//! the discrete side of a model of a learner's lexical knowledge (concepts,
//! their groups, how an attempt used each), the services' request error and
//! access-token rules. Every function here carries a contract that Verus
//! proves; what calls outside crates does so through a few trusted wrappers.

pub mod text;
pub mod lex;
pub mod gram;
pub mod concept;
pub mod observe;
pub mod predict;
pub mod http;
pub mod authn;
