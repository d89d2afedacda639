//! A reactive runtime (signals, effects, scopes) together with the
//! template helpers and element builders of a flexbox UI toolkit.

pub mod signals;
pub mod text;
pub mod template;
pub mod style;
pub mod ui;
pub mod propmap;
pub mod css;
pub mod tree;
pub mod parser;
pub mod codegen;
pub mod components;
pub mod events;
pub mod serialize;
