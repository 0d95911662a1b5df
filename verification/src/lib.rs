//! Dreamfish, a static site generator for indentation-based templates.
//!
//! The library reads templates (`lexer`, `parser`), data files (`kdl`,
//! `data`), checks a project (`project`) and renders its pages to HTML
//! (`render`, `compiler`); it also decides what the development server does
//! with a request (`serve`) and speaks its side of the live-reload socket
//! (`ws`, `hub`). Reading and writing files, sockets and the terminal is left to
//! the command around it.
pub mod text;
pub mod number;
pub mod ast;
pub mod lexer;
pub mod kv;
pub mod parser;
pub mod data;
pub mod kdl;
pub mod compiler;
pub mod render;
pub mod project;
pub mod ws;
pub mod hub;
pub mod serve;
pub mod term;
pub mod args;
