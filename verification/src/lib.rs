pub mod outside;
pub mod text;
pub mod word;
pub mod composition;
pub mod engine;
pub mod disambig;
pub mod tagger;
pub mod tokenizer;
pub mod synth;
pub mod rule;
pub mod rules;
