//! JSON Pointer (RFC 6901) parsing, formatting, and resolution.
//!
//! A [`JsonPointer`](ptr::JsonPointer) is an ordered sequence of reference
//! tokens that identifies a node inside a tree-shaped document. This crate
//! parses pointers from both the plain syntax (`/foo/0`) and the URI
//! fragment identifier syntax (`#/foo/0`), formats them back to text, and
//! resolves them against an in-memory document tree.

use vstd::prelude::*;

pub mod codec;
pub mod laws;
pub mod parser;
pub mod ptr;
pub mod value;

pub use codec::ParseError;
pub use ptr::IndexError;
pub use ptr::JsonPointer;
pub use value::JsonValue;

use ptr::IndexErrorView;
use value::spec_replace;
use value::spec_resolve;
use value::JsonView;

verus! {

/// Access to the node a [`JsonPointer`] names inside a document.
///
/// Any tree-shaped type can implement this, by giving its values a
/// mathematical shape ([`JsonPointerTarget::node_view`]) and the three
/// access modes below; the crate implements it for [`JsonValue`]. All three
/// walk the same fold over the pointer's tokens ([`spec_resolve`]) and stop
/// at the first error.
pub trait JsonPointerTarget: Sized {
    /// The mathematical shape of this document node.
    spec fn node_view(&self) -> JsonView;

    /// Attempts to get a reference to the value the pointer names inside
    /// `self`, returning which step failed if it cannot be found.
    fn get<'a>(&'a self, ptr: &JsonPointer) -> (r: Result<&'a Self, IndexError>)
        ensures
            match r {
                Ok(node) => spec_resolve(self.node_view(), ptr.toks()) == Ok::<
                    JsonView,
                    IndexErrorView,
                >(node.node_view()),
                Err(e) => spec_resolve(self.node_view(), ptr.toks()) == Err::<
                    JsonView,
                    IndexErrorView,
                >(e@),
            },
    ;

    /// Attempts to get a mutable reference to the value the pointer names
    /// inside `self`. On success the document afterwards is the old one
    /// with that node replaced by whatever the caller leaves behind the
    /// returned reference; on failure the document is unchanged.
    fn get_mut<'a>(&'a mut self, ptr: &JsonPointer) -> (r: Result<&'a mut Self, IndexError>)
        ensures
            match r {
                Ok(node) => spec_resolve(old(self).node_view(), ptr.toks()) == Ok::<
                    JsonView,
                    IndexErrorView,
                >(node.node_view()) && final(self).node_view() == spec_replace(
                    old(self).node_view(),
                    ptr.toks(),
                    final(node).node_view(),
                ),
                Err(e) => final(self).node_view() == old(self).node_view() && spec_resolve(
                    old(self).node_view(),
                    ptr.toks(),
                ) == Err::<JsonView, IndexErrorView>(e@),
            },
    ;

    /// Attempts to extract the value the pointer names out of `self`,
    /// consuming the document: the node is taken out of its parent and
    /// returned by value, and the rest of the document is discarded. Since
    /// nothing of the document survives the call, the order the siblings
    /// of the extracted node were left in is deliberately unobservable.
    fn get_owned(self, ptr: &JsonPointer) -> (r: Result<Self, IndexError>)
        ensures
            match r {
                Ok(node) => spec_resolve(self.node_view(), ptr.toks()) == Ok::<
                    JsonView,
                    IndexErrorView,
                >(node.node_view()),
                Err(e) => spec_resolve(self.node_view(), ptr.toks()) == Err::<
                    JsonView,
                    IndexErrorView,
                >(e@),
            },
    ;
}

} // verus!
