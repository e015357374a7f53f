//! What the operations of the library are for, said of whole inputs and results: how they relate
//! to the characters and bytes that go in and come out.

pub mod application;
pub mod certificates;
pub mod forwarding;
pub mod parsing;
pub mod requests;
