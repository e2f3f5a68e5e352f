//! The rowan green tree: the declarations and trusted wrappers through
//! which the parser's events become a `rowan::GreenNode`, and the log model
//! the contracts speak in.
//!
//! A builder is described by the calls it has been given, one entry each:
//! `(0, kind, "")` for `start_node`, `(1, kind, text)` for `token`, and
//! `(2, 0, "")` for `finish_node`. A finished green node is described by its
//! preorder walk in the same entry form.

use vstd::prelude::*;
use vstd::utf8::encode_utf8;

verus! {

/// `rowan::GreenNodeBuilder`, carried opaquely.
#[verifier::external_type_specification]
#[verifier::external_body]
pub struct ExGreenNodeBuilder<'a>(rowan::GreenNodeBuilder<'a>);

/// `rowan::GreenNode`, carried opaquely.
#[verifier::external_type_specification]
#[verifier::external_body]
pub struct ExGreenNode(rowan::GreenNode);

/// The calls a builder has been given, in order.
pub uninterp spec fn builder_log(b: rowan::GreenNodeBuilder<'static>) -> Seq<(u8, u16, Seq<char>)>;

/// The preorder walk of a green node.
pub uninterp spec fn green_preorder(g: rowan::GreenNode) -> Seq<(u8, u16, Seq<char>)>;

/// How many nodes a log leaves open.
pub open spec fn log_depth(log: Seq<(u8, u16, Seq<char>)>) -> int
    decreases log.len(),
{
    if log.len() == 0 {
        0
    } else {
        log_depth(log.drop_last()) + if log.last().0 == 0 {
            1int
        } else if log.last().0 == 2 {
            -1int
        } else {
            0int
        }
    }
}

/// The log describes exactly one complete node: it opens one, keeps it open
/// until its last entry, and closes it there.
pub open spec fn one_node(log: Seq<(u8, u16, Seq<char>)>) -> bool {
    &&& log.len() >= 2
    &&& log[0].0 == 0
    &&& log_depth(log) == 0
    &&& forall|i: int| 1 <= i < log.len() ==> log_depth(#[trigger] log.take(i)) >= 1
}

/// The text of a log: its token texts, in order.
pub open spec fn log_text(log: Seq<(u8, u16, Seq<char>)>) -> Seq<char>
    decreases log.len(),
{
    if log.len() == 0 {
        seq![]
    } else {
        log_text(log.drop_last()) + if log.last().0 == 1 {
            log.last().2
        } else {
            seq![]
        }
    }
}

/// The UTF-8 byte length of a log's token texts.
pub open spec fn log_bytes(log: Seq<(u8, u16, Seq<char>)>) -> int
    decreases log.len(),
{
    if log.len() == 0 {
        0
    } else {
        log_bytes(log.drop_last()) + if log.last().0 == 1 {
            encode_utf8(log.last().2).len() as int
        } else {
            0int
        }
    }
}

/// `rowan::GreenNodeBuilder::new`: a builder that has been told nothing.
#[verifier::external_body]
pub(crate) fn builder_new() -> (b: rowan::GreenNodeBuilder<'static>)
    ensures
        builder_log(b) == Seq::<(u8, u16, Seq<char>)>::empty(),
{
    rowan::GreenNodeBuilder::new()
}

/// `rowan::GreenNodeBuilder::start_node`: opens a node of the raw kind.
#[verifier::external_body]
pub(crate) fn builder_start_node(b: &mut rowan::GreenNodeBuilder<'static>, kind: u16)
    ensures
        builder_log(*final(b)) == builder_log(*old(b)).push((0u8, kind, Seq::<char>::empty())),
{
    b.start_node(rowan::SyntaxKind(kind));
}

/// `rowan::GreenNodeBuilder::token`: adds a token of the raw kind with
/// `text` to the open node.
#[verifier::external_body]
pub(crate) fn builder_token(b: &mut rowan::GreenNodeBuilder<'static>, kind: u16, text: &str)
    ensures
        builder_log(*final(b)) == builder_log(*old(b)).push((1u8, kind, text@)),
{
    b.token(rowan::SyntaxKind(kind), text);
}

/// `rowan::GreenNodeBuilder::finish_node`: closes the innermost open node.
/// It unwraps the innermost open node, so one must be open; and the new node
/// sums its children's text lengths as a `TextSize` (a `u32`, each token's
/// length converted with an unwrap), so the token texts given so far, which
/// include the node's own, must fit in a `u32`.
#[verifier::external_body]
pub(crate) fn builder_finish_node(b: &mut rowan::GreenNodeBuilder<'static>)
    requires
        log_depth(builder_log(*old(b))) >= 1,
        log_bytes(builder_log(*old(b))) <= u32::MAX,
    ensures
        builder_log(*final(b)) == builder_log(*old(b)).push((2u8, 0u16, Seq::<char>::empty())),
{
    b.finish_node();
}

/// `rowan::GreenNodeBuilder::finish`: the finished tree, whose preorder is
/// what the builder was told. It asserts that exactly one complete node was
/// built.
#[verifier::external_body]
pub(crate) fn builder_finish(b: rowan::GreenNodeBuilder<'static>) -> (g: rowan::GreenNode)
    requires
        one_node(builder_log(b)),
    ensures
        green_preorder(g) == builder_log(b),
{
    b.finish()
}

/// `rowan::GreenNode::clone`: the same tree.
#[verifier::external_body]
pub(crate) fn green_clone(g: &rowan::GreenNode) -> (r: rowan::GreenNode)
    ensures
        green_preorder(r) == green_preorder(*g),
{
    g.clone()
}

} // verus!
