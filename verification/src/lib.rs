use vstd::prelude::*;

pub mod text;
pub mod process;
pub mod lexer;
pub mod ast;
pub mod parser;
pub mod files;
pub mod db;
pub mod render;
pub mod request;
pub mod sockets;

verus! {
}
