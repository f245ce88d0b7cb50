use vstd::prelude::*;

use crate::digest::{views, Digest};
use crate::model::Oracle;

verus! {

/// What an optional digest holds, as bytes.
pub open spec fn opt_view(r: Option<Digest>) -> Option<Seq<u8>> {
    match r {
        Some(d) => Some(d@),
        None => None,
    }
}

/// A call of `h` on the children `node` may return `out`.
pub open spec fn answers<H: Fn(&Vec<Digest>) -> Option<Digest>>(
    h: &H,
    node: Seq<Seq<u8>>,
    out: Option<Seq<u8>>,
) -> bool {
    exists|v: Vec<Digest>, r: Option<Digest>|
        views(v@) == node && opt_view(r) == out && #[trigger] h.ensures((&v,), r)
}

/// `h` is a hash oracle: it takes any group of eight children, and what it
/// returns depends on the children's bytes alone.
pub open spec fn is_oracle<H: Fn(&Vec<Digest>) -> Option<Digest>>(h: &H) -> bool {
    &&& forall|v: Vec<Digest>| v@.len() == 8 ==> #[trigger] h.requires((&v,))
    &&& forall|node: Seq<Seq<u8>>, a: Option<Seq<u8>>, b: Option<Seq<u8>>|
        node.len() == 8 && #[trigger] answers(h, node, a) && #[trigger] answers(h, node, b) ==> a
            == b
}

/// The function that the oracle `h` computes.
pub open spec fn oracle_of<H: Fn(&Vec<Digest>) -> Option<Digest>>(h: &H) -> Oracle {
    |node: Seq<Seq<u8>>| choose|out: Option<Seq<u8>>| answers(h, node, out)
}

/// Asks the oracle for the digest of one group of eight children.
pub fn ask<H: Fn(&Vec<Digest>) -> Option<Digest>>(h: &H, node: &Vec<Digest>) -> (r: Option<Digest>)
    requires
        is_oracle(h),
        node@.len() == 8,
    ensures
        h.ensures((node,), r),
        opt_view(r) == oracle_of(h)(views(node@)),
{
    let r = h(node);
    proof {
        assert(answers(h, views(node@), opt_view(r)));
    }
    r
}

} // verus!
