//! The formatter options that the class-name features read.

use vstd::prelude::*;

verus! {

/// Options of the `sort_tailwindcss` feature.
pub struct SortTailwindcssOptions {
    /// Keep the whitespace of class strings as written.
    pub preserve_whitespace: bool,
    /// JSX attributes, besides `class` and `className`, that hold classes.
    pub attributes: Vec<String>,
    /// Functions whose arguments hold classes (`clsx`, `cn`, ...).
    pub functions: Vec<String>,
}

/// Options of the `wrap_class_names` feature.
pub struct WrapClassNamesOptions {
    /// JSX attributes, besides `class` and `className`, that hold classes.
    pub attributes: Vec<String>,
    /// Functions whose arguments hold classes.
    pub functions: Vec<String>,
    /// Turn a JSX attribute string that has to wrap into an expression
    /// holding a template literal.
    pub syntax_transformation: bool,
}

/// How object property keys are quoted.
#[derive(Clone, Copy, Debug, PartialEq, Eq, Structural)]
pub enum QuoteProperties {
    /// Only where required.
    AsNeeded,
    /// If any key requires quotes, quote all of them.
    Consistent,
    /// As written.
    Preserve,
}

impl QuoteProperties {
    /// Whether keys are quoted consistently.
    pub fn is_consistent(&self) -> (r: bool)
        ensures
            r == (*self == QuoteProperties::Consistent),
    {
        match self {
            QuoteProperties::Consistent => true,
            _ => false,
        }
    }
}

/// The quote used for strings.
#[derive(Clone, Copy, Debug, PartialEq, Eq, Structural)]
pub enum QuoteStyle {
    Double,
    Single,
}

impl QuoteStyle {
    /// The quote character, as a string.
    pub open spec fn spec_as_str(self) -> Seq<char> {
        match self {
            QuoteStyle::Double => seq!['"'],
            QuoteStyle::Single => seq!['\''],
        }
    }

    /// The quote character, as a string.
    pub fn as_str(&self) -> (r: &'static str)
        ensures
            r@ == self.spec_as_str(),
    {
        match self {
            QuoteStyle::Double => {
                proof {
                    reveal_strlit("\"");
                }
                "\""
            },
            QuoteStyle::Single => {
                proof {
                    reveal_strlit("'");
                }
                "'"
            },
        }
    }
}

/// The formatter options that the class-name handling reads.
pub struct JsFormatOptions {
    /// Tailwind CSS class sorting, when configured.
    pub sort_tailwindcss: Option<SortTailwindcssOptions>,
    /// Wrapping of class strings to the print width, when configured.
    pub wrap_class_names: Option<WrapClassNamesOptions>,
    /// How object property keys are quoted.
    pub quote_properties: QuoteProperties,
    /// The quote used for strings.
    pub quote_style: QuoteStyle,
    /// Whether the `>` of a multi-line JSX element goes on the last line.
    pub bracket_same_line: bool,
}

} // verus!
