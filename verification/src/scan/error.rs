//! Scan precondition failures.

use vstd::prelude::*;
use crate::text;

verus! {

/// A scan precondition violation: the query or filter shape does not match
/// the view it is scored against. Returned by `Scorer::top_k` and
/// `Scorer::rerank`; each variant carries both sides of the mismatch.
#[derive(Clone, Copy, Debug, PartialEq, Eq, Structural)]
pub enum ScanError {
    /// The filter covers a different id universe than the view has rows.
    FilterLen { filter_len: usize, rows: usize },
    /// The query vector's dimension differs from the view's row dimension.
    QueryDim { query_dim: usize, view_dim: usize },
}

impl ScanError {
    /// The text shown to a user.
    pub open spec fn message(self) -> Seq<char> {
        match self {
            ScanError::FilterLen { filter_len, rows } => "filter covers "@ + text::decimal(
                filter_len as nat,
            ) + " ids but the view has "@ + text::decimal(rows as nat) + " rows"@,
            ScanError::QueryDim { query_dim, view_dim } => "query dim "@ + text::decimal(
                query_dim as nat,
            ) + " vs view dim "@ + text::decimal(view_dim as nat),
        }
    }

    /// Renders the message.
    pub fn to_string(&self) -> (r: String)
        ensures
            r@ == self.message(),
    {
        let mut out: String = String::new();
        match *self {
            ScanError::FilterLen { filter_len, rows } => {
                out.append("filter covers ");
                text::push_decimal(&mut out, filter_len as u128);
                out.append(" ids but the view has ");
                text::push_decimal(&mut out, rows as u128);
                out.append(" rows");
            },
            ScanError::QueryDim { query_dim, view_dim } => {
                out.append("query dim ");
                text::push_decimal(&mut out, query_dim as u128);
                out.append(" vs view dim ");
                text::push_decimal(&mut out, view_dim as u128);
            },
        }
        assert(out@ =~= self.message());
        out
    }
}

} // verus!
