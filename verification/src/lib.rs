//! Dice-expression arithmetic: parsing of infix expressions whose operands
//! are plain numbers or dice in `QdS` notation, in-place roll freezing,
//! evaluation to a single integer, and rendering back to text.

pub mod rolling;
