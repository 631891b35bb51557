//! Symbols with named variants: selecting a variant by a set of modifiers,
//! validating user-defined variant lists, and the textual forms of symbols.

pub mod text;
pub mod modifier_set;
pub mod symbol;
pub mod repr;
pub mod ident;
pub mod construct;
pub mod elem;
pub mod laws;
