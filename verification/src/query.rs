//! The pairing of a corpus view and a query encoding that a scan scores.
//!
//! [`ViewQuery`] bundles both sides of a scan. [`CorpusView`] names each
//! view's canonical query encoding, the one shaped like the rows, which is
//! `ViewQuery`'s default; only the asymmetric pairings spell their query type.
//! [`QueryData`] reports the dimension that the scan validates against the
//! view; packed sign bits opt out, since their length is in bytes while a
//! binary view's dimension is in bits.

use vstd::prelude::*;
use crate::scan::error::ScanError;
use crate::storage::binary::BinaryView;
use crate::storage::int8::I8View;
use crate::storage::single::F32View;

verus! {

/// A corpus representation that can be scanned: its geometry and the
/// canonical query encoding scored against it.
pub trait CorpusView: Copy {
    /// The query with the same encoding as the rows.
    type Query;

    /// Number of rows.
    spec fn row_count(&self) -> nat;

    /// Row dimension in original-vector units.
    spec fn width(&self) -> nat;

    /// Rows in the view; their ids fit in 32 bits.
    fn rows(&self) -> (r: usize)
        ensures
            r == self.row_count(),
            r <= u32::MAX,
    ;

    /// Row dimension in original-vector units (a binary view reports bits).
    fn dim(&self) -> (r: usize)
        ensures
            r == self.width(),
    ;
}

impl<'a> CorpusView for F32View<'a> {
    type Query = &'a [u32];

    open spec fn row_count(&self) -> nat {
        self.matrix().len()
    }

    open spec fn width(&self) -> nat {
        self.columns()
    }

    fn rows(&self) -> (r: usize) {
        self.len()
    }

    fn dim(&self) -> (r: usize) {
        F32View::dim(self)
    }
}

impl<'a> CorpusView for I8View<'a> {
    type Query = I8Query<'a>;

    open spec fn row_count(&self) -> nat {
        self.matrix().len()
    }

    open spec fn width(&self) -> nat {
        self.columns()
    }

    fn rows(&self) -> (r: usize) {
        self.len()
    }

    fn dim(&self) -> (r: usize) {
        I8View::dim(self)
    }
}

impl<'a> CorpusView for BinaryView<'a> {
    type Query = &'a [u8];

    open spec fn row_count(&self) -> nat {
        self.matrix().len()
    }

    open spec fn width(&self) -> nat {
        self.columns()
    }

    fn rows(&self) -> (r: usize) {
        self.len()
    }

    fn dim(&self) -> (r: usize) {
        BinaryView::dim(self)
    }
}

/// A pre-quantized int8 query: the codes and the scale that returns their dot
/// products to the original units.
#[derive(Clone, Copy)]
pub struct I8Query<'a> {
    pub codes: &'a [i8],
    pub scale: u32,
}

/// A query encoding's validated dimension. `None` opts out of the dimension
/// check of a scan.
pub trait QueryData: Copy {
    /// The dimension, where the encoding has one.
    spec fn length(&self) -> Option<nat>;

    /// The dimension to validate against the view.
    fn dim(&self) -> (r: Option<usize>)
        ensures
            r is Some <==> self.length() is Some,
            r matches Some(d) ==> self.length() == Some(d as nat),
    ;
}

impl<'a> QueryData for &'a [u32] {
    open spec fn length(&self) -> Option<nat> {
        Some(self@.len())
    }

    fn dim(&self) -> (r: Option<usize>) {
        Some(self.len())
    }
}

impl<'a> QueryData for &'a [i8] {
    open spec fn length(&self) -> Option<nat> {
        Some(self@.len())
    }

    fn dim(&self) -> (r: Option<usize>) {
        Some(self.len())
    }
}

impl<'a> QueryData for &'a [u8] {
    open spec fn length(&self) -> Option<nat> {
        None
    }

    fn dim(&self) -> (r: Option<usize>) {
        None
    }
}

impl<'a> QueryData for I8Query<'a> {
    open spec fn length(&self) -> Option<nat> {
        Some(self.codes@.len())
    }

    fn dim(&self) -> (r: Option<usize>) {
        Some(self.codes.len())
    }
}

/// The two sides of a scan: a corpus view and the query scored against it.
#[derive(Clone, Copy)]
pub struct ViewQuery<V: CorpusView, Q = <V as CorpusView>::Query> {
    pub view: V,
    pub query: Q,
}

/// The query has a dimension, and it is not the view's.
pub open spec fn dim_mismatch<V: CorpusView, Q: QueryData>(pair: ViewQuery<V, Q>) -> bool {
    pair.query.length() matches Some(d) && d != pair.view.width()
}

impl<V: CorpusView, Q: QueryData> ViewQuery<V, Q> {
    /// Rows in the view.
    pub(crate) fn rows(&self) -> (r: usize)
        ensures
            r == self.view.row_count(),
            r <= u32::MAX,
    {
        self.view.rows()
    }

    /// Fails where the query's dimension is not the view's.
    pub(crate) fn check_dim(&self) -> (r: Result<(), ScanError>)
        ensures
            r is Err <==> dim_mismatch(*self),
            r matches Err(e) ==> e == (ScanError::QueryDim {
                query_dim: (self.query.length()->0) as usize,
                view_dim: self.view.width() as usize,
            }),
    {
        let view_dim: usize = self.view.dim();
        match self.query.dim() {
            Some(query_dim) => {
                if query_dim != view_dim {
                    return Err(ScanError::QueryDim { query_dim, view_dim });
                }
                Ok(())
            },
            None => Ok(()),
        }
    }
}

} // verus!
