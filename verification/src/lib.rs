//! Verified building blocks: a Fibonacci toolbox, packet header codecs,
//! a fixed-capacity ring buffer, a linked list, a bucketed hash map,
//! an LRU cache and a small JSON tokenizer and parser.
pub mod fibonacci;
pub mod packet;
pub mod json;
pub mod ring_buffer;
pub mod hashmap;
pub mod lru_cache;
pub mod double_linked_list;
