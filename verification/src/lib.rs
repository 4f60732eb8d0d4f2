//! Core passes of the nash compiler back end: free-variable analysis,
//! dependency ordering of specializations, recursion removal and lowering of
//! Core to Untyped Plutus Core.
pub mod ir;
pub mod program;
pub mod emission;
pub mod recursion;
pub mod uplc;
pub mod debruijn;
pub mod lower;
pub mod closed;
pub mod strings;
pub mod source_lets;
pub mod accessors;
