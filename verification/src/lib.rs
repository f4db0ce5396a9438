pub mod text;
pub mod pages;
pub mod section;
pub mod translate;
pub mod ollama;
pub mod load;
pub mod compile;
pub mod tts;
pub mod annotate;
pub mod parse;
pub mod epub;
pub mod xml;
