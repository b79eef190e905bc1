//! Class-name handling of a JavaScript formatter: the class context that
//! tracks where class strings are sorted (Tailwind CSS) and/or wrapped, the
//! whitespace rules of class strings, and the expansion of wrapping class
//! markers into fills after the host's sort.

pub mod options;
pub mod class_context;
pub mod strings;
pub mod format_element;
pub mod memo;
pub mod wrap_class_names;
pub mod wrap_expand;
pub mod span;
pub mod context;
pub mod formatter;
pub mod ast;
pub mod js_formatter;
pub mod tailwindcss;
pub mod opening_element;
pub mod call_expression;
