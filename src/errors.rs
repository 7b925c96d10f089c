use vstd::prelude::*;
use crate::coord::Coord;

verus! {

/// What can go wrong while indexing tiles or looking up heights.
#[derive(Clone, Debug, PartialEq)]
pub enum Error {
    /// The coordinate lies outside the sampled interior of the named tile.
    LookupError(Coord, String),
    /// No tile covers the coordinate.
    MapNotFound(Coord),
    /// The named tile has no pixel data yet.
    MapNotLoaded(String),
    /// Anything else, with a message.
    Generic(String),
}

/// `Error` with its strings seen as character sequences.
pub ghost enum ErrorView {
    LookupError(Coord, Seq<char>),
    MapNotFound(Coord),
    MapNotLoaded(Seq<char>),
    Generic(Seq<char>),
}

impl View for Error {
    type V = ErrorView;

    open spec fn view(&self) -> ErrorView {
        match self {
            Error::LookupError(c, s) => ErrorView::LookupError(*c, s@),
            Error::MapNotFound(c) => ErrorView::MapNotFound(*c),
            Error::MapNotLoaded(s) => ErrorView::MapNotLoaded(s@),
            Error::Generic(s) => ErrorView::Generic(s@),
        }
    }
}

/// A result seen through the view of its error.
pub open spec fn result_view<T>(r: Result<T, Error>) -> Result<T, ErrorView> {
    match r {
        Ok(v) => Ok(v),
        Err(e) => Err(e@),
    }
}

} // verus!
