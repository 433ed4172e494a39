//! Identities of concrete types behind trait objects, for serializing trait objects tagged with the identity of their
//! concrete type.
use vstd::prelude::*;

verus! {

/// A type with a static identity.
pub trait Id {
    /// The identity of the type.
    spec fn spec_id() -> Seq<char>;

    /// Returns the identity of the type.
    fn id() -> (r: &'static str)
        ensures
            r@ == Self::spec_id(),
    ;
}

/// A value that knows the identity of its type.
pub trait DynId {
    /// The identity of the type of this value.
    spec fn spec_dyn_id(&self) -> Seq<char>;

    /// Returns the identity of the type of this value.
    fn dyn_id(&self) -> (r: &'static str)
        ensures
            r@ == self.spec_dyn_id(),
    ;
}

impl<T: Id> DynId for T {
    open spec fn spec_dyn_id(&self) -> Seq<char> {
        T::spec_id()
    }

    fn dyn_id(&self) -> (r: &'static str) {
        T::id()
    }
}

/// A boxed value that is serialized tagged with the identity of its type.
pub struct TaggedSerde<O>(pub Box<O>);

impl<O> TaggedSerde<O> {
    /// Wraps `value`.
    pub fn new(value: Box<O>) -> (r: Self)
        ensures
            r.0 == value,
    {
        TaggedSerde(value)
    }
}

} // verus!
