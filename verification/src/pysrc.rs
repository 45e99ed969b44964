//! A plain-value model of a parsed Python module: exactly the shape the
//! core reads from a syntax tree.
//!
//! The caller parses a source file with a Python parser and hands the core
//! one `Vec<PyStmt>` per file. Positions are byte offsets into the source
//! text (`start` inclusive, `end` exclusive), as the parser reports them;
//! the core converts offsets to line numbers itself. Decorators carry only
//! the parts marker extraction reads: a name, and for call-style decorators
//! the first positional argument and the keyword arguments, with constant
//! values reduced to plain scalars and lists.

use vstd::prelude::*;

verus! {

/// A scalar expression in a decorator argument position.
pub enum PyScalar {
    /// A boolean constant.
    Bool(bool),
    /// A string constant.
    Str(String),
    /// An integer constant that fits a machine integer.
    Int(i64),
    /// A bare name, such as `True` in positions where it is not a constant.
    NameRef(String),
    /// Any other expression; markers ignore it.
    OtherScalar,
}

/// An argument value in a call-style decorator.
pub enum PyArg {
    Scalar(PyScalar),
    /// A list literal; elements beyond scalars are already reduced.
    ListArg(Vec<PyScalar>),
}

/// One decorator above a function, method, or class.
pub enum PyDecorator {
    /// `@name` or `@module.name`: the bare (last) identifier.
    Plain { name: String },
    /// `@name(...)`: the callee's bare identifier, positional arguments,
    /// and keyword arguments (`None` names a `**kwargs` splat).
    CallDec { name: String, args: Vec<PyArg>, keywords: Vec<(Option<String>, PyArg)> },
    /// A decorator expression of any other shape; ignored.
    OtherDec,
}

/// A byte span of one statement.
pub struct SpanS {
    pub start: usize,
    pub end: usize,
}

/// A function or method definition (`def` or `async def`).
pub struct PyDef {
    /// The unqualified name.
    pub name: String,
    /// Byte offset where the definition itself starts (the `def` keyword
    /// line, decorators excluded).
    pub def_start: usize,
    /// Byte offset one past the definition's last token.
    pub end: usize,
    /// Byte offset where the first decorator starts, if any.
    pub first_decorator_start: Option<usize>,
    /// The decorators, first to last.
    pub decorators: Vec<PyDecorator>,
}

/// A class definition with its `def` members.
pub struct PyClass {
    pub name: String,
    /// Byte span of the whole class statement.
    pub start: usize,
    pub end: usize,
    /// The decorators on the class itself.
    pub decorators: Vec<PyDecorator>,
    /// The class body's `def` members, in order. Other class-body
    /// statements carry no identity of their own.
    pub defs: Vec<PyDef>,
}

/// One top-level statement of a module.
pub enum PyStmt {
    /// An `import` or `from ... import` statement.
    Import(SpanS),
    /// A function definition.
    Def(PyDef),
    /// A class definition.
    Class(PyClass),
    /// Any other statement.
    Other(SpanS),
}

} // verus!
