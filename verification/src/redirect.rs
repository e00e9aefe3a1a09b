//! Where a command's output stream goes.

use vstd::prelude::*;

verus! {

/// A redirection of one output stream into a file.
#[derive(Clone, Debug)]
pub struct Redirect {
    /// The file written to.
    pub filename: String,
    /// Whether the file is appended to rather than written from its start.
    pub is_append: bool,
}

/// The mathematical model of a [`Redirect`].
pub struct RedirectView {
    pub filename: Seq<char>,
    pub is_append: bool,
}

impl View for Redirect {
    type V = RedirectView;

    open spec fn view(&self) -> RedirectView {
        RedirectView { filename: self.filename@, is_append: self.is_append }
    }
}

/// The model of an optional redirection.
pub open spec fn redirect_view(r: Option<Redirect>) -> Option<RedirectView> {
    match r {
        Some(x) => Some(x@),
        None => None,
    }
}

} // verus!
