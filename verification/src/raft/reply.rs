//! What applying a committed command answers.

use vstd::prelude::*;
use crate::bytes::{copy_slice, same_bytes};
use crate::model::opt_view;

verus! {

/// A committed reply, shaped by the operation.
#[derive(Clone, Debug, PartialEq, Eq)]
pub enum CpReply {
    Long(i64),
    Bool(bool),
    Data(Option<Vec<u8>>),
    Nil,
}

/// What a [`CpReply`] holds.
pub enum ReplyView {
    Long(i64),
    Bool(bool),
    Data(Option<Seq<u8>>),
    Nil,
}

impl View for CpReply {
    type V = ReplyView;

    open spec fn view(&self) -> ReplyView {
        match self {
            CpReply::Long(v) => ReplyView::Long(*v),
            CpReply::Bool(b) => ReplyView::Bool(*b),
            CpReply::Data(d) => ReplyView::Data(opt_view(*d)),
            CpReply::Nil => ReplyView::Nil,
        }
    }
}

/// An owned copy of an optional value.
pub fn copy_opt(o: Option<&Vec<u8>>) -> (r: Option<Vec<u8>>)
    ensures
        opt_view(r) == opt_view(o),
{
    match o {
        Some(b) => Some(copy_slice(b.as_slice())),
        None => None,
    }
}

/// Whether two optional values are the same.
pub fn same_opt(a: Option<&Vec<u8>>, b: Option<&Vec<u8>>) -> (r: bool)
    ensures
        r == (opt_view(a) == opt_view(b)),
{
    match (a, b) {
        (Some(x), Some(y)) => same_bytes(x.as_slice(), y.as_slice()),
        (None, None) => true,
        _ => false,
    }
}

} // verus!
