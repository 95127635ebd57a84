// Reading SGF game records: a scanner from characters to tokens, a recursive-descent parser
// from tokens to a tree of game trees, and the structural transforms on that tree.
pub mod input;
pub mod parser;
pub mod scanner;
pub mod text;
pub mod vertex;
