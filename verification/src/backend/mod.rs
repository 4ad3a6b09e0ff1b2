//! Code generation backends that consume a type-checked module.

pub mod jvm;
