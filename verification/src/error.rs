//! What can be wrong with the modules to link.

use vstd::prelude::*;

verus! {

/// Why modules cannot be linked.
#[derive(Debug, PartialEq)]
pub enum LinkerError {
    /// No module exports an imported symbol.
    UnresolvedSymbol(String),
    /// A symbol that is imported is exported more than once.
    MultipleExports(String),
    /// A symbol is imported with another type than it is exported with.
    TypeMismatch { name: String, import_type: String, export_type: String },
    /// Any other failure.
    Unknown,
}

pub enum ErrorView {
    UnresolvedSymbol(Seq<char>),
    MultipleExports(Seq<char>),
    TypeMismatch { name: Seq<char>, import_type: Seq<char>, export_type: Seq<char> },
    Unknown,
}

impl View for LinkerError {
    type V = ErrorView;

    open spec fn view(&self) -> ErrorView {
        match *self {
            LinkerError::UnresolvedSymbol(name) => ErrorView::UnresolvedSymbol(name@),
            LinkerError::MultipleExports(name) => ErrorView::MultipleExports(name@),
            LinkerError::TypeMismatch { name, import_type, export_type } => {
                ErrorView::TypeMismatch {
                    name: name@,
                    import_type: import_type@,
                    export_type: export_type@,
                }
            },
            LinkerError::Unknown => ErrorView::Unknown,
        }
    }
}

} // verus!
