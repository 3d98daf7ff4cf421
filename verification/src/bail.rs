//! The error value every parser in the crate returns: a message plus an
//! optional chain of underlying causes, modelled as the sequence of messages
//! from the outermost to the innermost.

use vstd::prelude::*;

verus! {

/// A located parse failure: a message and, when one failure triggered
/// another, the underlying cause.
#[derive(Debug, PartialEq)]
pub struct Bail {
    pub msg: String,
    pub more: Option<Box<Bail>>,
}

/// The messages of the chain, outermost first.
pub open spec fn bail_chain(b: Bail) -> Seq<Seq<char>>
    decreases b,
{
    match b.more {
        Option::None => seq![b.msg@],
        Option::Some(inner) => seq![b.msg@] + bail_chain(*inner),
    }
}

impl View for Bail {
    type V = Seq<Seq<char>>;

    open spec fn view(&self) -> Seq<Seq<char>> {
        bail_chain(*self)
    }
}

impl Bail {
    /// A failure with no underlying cause.
    pub fn new(msg: String) -> (r: Bail)
        ensures
            r@ == seq![msg@],
    {
        let r = Bail { msg, more: None };
        proof {
            assert(r@ =~= seq![r.msg@]);
        }
        r
    }

    /// A failure caused by an earlier one.
    pub fn wrap(msg: String, inner: Bail) -> (r: Bail)
        ensures
            r@ == seq![msg@] + inner@,
    {
        let ghost iv = inner@;
        let r = Bail { msg, more: Some(Box::new(inner)) };
        proof {
            assert(r@ =~= seq![r.msg@] + iv);
        }
        r
    }
}

/// The result type of every parser: a value or a chained failure.
pub type E<T> = Result<T, Bail>;

} // verus!
