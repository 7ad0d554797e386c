//! What each operation is for, stated on its inputs and its results.
//!
//! A contract says what a function returns as a mathematical function of its arguments.
//! The laws here say what those functions must satisfy: how the result relates to the
//! text that went in, with the characters, the limits and the words of the format written
//! out. Where the inputs of a law are put together from parts, every input of the
//! operation can be put together so.
pub mod blocks;
pub mod characters;
pub mod columns;
pub mod logs;
pub mod messages;
pub mod savings;
pub mod tables;
pub mod tools;
