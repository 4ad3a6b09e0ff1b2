//! The JVM bytecode backend. Consumes the same type-checked module the interpreter
//! does and emits a single hand-written `.class` file.
//!
//! - `pool`: the constant pool (JVMS §4.4).
//! - `code`: a `Code` attribute builder; every method this backend emits is
//!   straight-line, so it never needs a `StackMapTable`.
//! - `class`: assembles a complete `.class` file from a pool plus fields/methods.
//! - `codegen`: walks a type-checked module and drives the above to produce one
//!   class's bytes.

pub mod class;
pub mod code;
pub mod codegen;
pub mod pool;

pub use codegen::compile;
pub use pool::ConstantPool;
