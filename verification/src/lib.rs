//! Building blocks for canisters: a verified stable-storage allocator with its
//! checksummed block headers, an LRU block cache, certified collections built on
//! a left-leaning red-black tree with Merkle witnesses, and HTTP / call-reply
//! helper types.

pub mod allocator;
pub mod call;
pub mod canister;
pub mod checksum;
pub mod codegen;
pub mod collections;
pub mod global;
pub mod group;
pub mod hashtree;
pub mod hole;
pub mod http;
pub mod label;
pub mod lru;
pub mod memory;
pub mod pointer;
pub mod rbtree;
pub mod replica;

use vstd::prelude::*;

verus! {


} // verus!
