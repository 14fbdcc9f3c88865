//! WJK-20 token ledger, wojakmap block claims and `.wjk` domain registry
//! of the Wojakcoin ordinals indexer, with their contracts proved by Verus.

pub mod chain;
pub mod laws;
pub mod ledger;
pub mod ops;
pub mod parse;
pub mod read;
pub mod replay;
pub mod rpc;
pub mod sort;
pub mod supply;
pub mod table;
pub mod tables;
pub mod text;

use vstd::prelude::*;

verus! {

} // verus!
