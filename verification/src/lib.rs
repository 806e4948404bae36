pub mod cards;
pub mod expression_builder;
pub mod language;
pub mod player;
pub mod selector;
pub mod text;
