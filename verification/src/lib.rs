//! LIPI — core language logic: gradual types and the static checker, string
//! interpolation, source transliteration, the regex engine, the bytecode
//! format, archives and checksums, configuration readers, the package
//! manifest, the web server's routing, the editor buffer and the prompt's
//! decisions, each stated and proved against a mathematical model.

pub mod text;
pub mod types;
pub mod ast;
pub mod typecheck;
pub mod interp;
pub mod name_table;
pub mod opcode;
pub mod serializer;
pub mod roman;
pub mod phonetic;
pub mod tui;
pub mod repl;
pub mod excerpt;
pub mod registry;
pub mod regex_engine;
pub mod pratimaan;
pub mod combin;
pub mod random;
pub mod zip;
pub mod suraksha;
pub mod server;
pub mod tomlparse;
pub mod xmlparse;
pub mod yaml;
pub mod pkg;
pub mod sqltok;
pub mod sangrah;
pub mod parser;
