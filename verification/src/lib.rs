//! Structural-sharing ("hidden class") object layer for a dynamic-language
//! runtime: interned property names, an append-only shape transition tree,
//! and dynamic objects that pair a shape with a growable slot array. Objects
//! built through the same sequence of property additions and prototype
//! assignments converge onto one identical, identity-comparable shape.

pub mod protobj;
pub mod value;
