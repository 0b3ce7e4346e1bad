pub mod bound_procedure;
pub mod builtin_procedure;
pub mod callable;
pub mod compound_procedure;
pub mod environment;
pub mod interpreter;
pub mod mutable_string;
pub mod number;
pub mod object_tracker;
pub mod pair;
pub mod parser;
pub mod procedure;
pub mod source_mapped;
pub mod source_mapper;
pub mod special_form;
pub mod stdio_printer;
pub mod string_interner;
pub mod text;
pub mod tokenizer;
pub mod value;
pub mod gc;
pub mod gc_rooted;
pub mod tracked_stats;
pub mod builtins;
pub mod collector;
pub mod display;
pub mod cli;
