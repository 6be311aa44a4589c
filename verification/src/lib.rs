//! A portmantout builder: given a corpus of words, it computes for every word
//! the set of words that can legally follow it (some suffix of the first word
//! equals a prefix of the second), and then greedily chains words end to end
//! into one long string, under minimum-overlap, word-reuse and chain-length
//! policies. A line-based codec serializes and reloads the computed adjacency
//! lists.

pub mod ascii;
pub mod options;
pub mod corpus;
pub mod extensions;
pub mod chain;
pub mod codec;
