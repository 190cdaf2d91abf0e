//! The traits by which an input cursor carries the recursion flags, and their
//! impls for `nom_locate::LocatedSpan`.

use crate::flags::RecursiveInfo;
use vstd::prelude::*;

verus! {

/// A located span is carried through as it is; only `nom_locate` looks inside.
#[verifier::external_type_specification]
#[verifier::external_body]
#[verifier::reject_recursive_types(T)]
#[verifier::reject_recursive_types(X)]
pub struct ExLocatedSpan<T, X>(nom_locate::LocatedSpan<T, X>);

/// `LocatedSpan::fragment`: a reference to the fragment that the span covers.
/// Nothing is claimed of it.
#[verifier::external_body]
fn span_fragment<T, X>(span: &nom_locate::LocatedSpan<T, X>) -> (fragment: &T) {
    span.fragment()
}

/// The public field `extra` of a `LocatedSpan`. Nothing is claimed of it.
#[verifier::external_body]
fn span_extra<T, X>(span: &nom_locate::LocatedSpan<T, X>) -> (extra: &X) {
    &span.extra
}

/// `LocatedSpan::map_extra`, with the function that hands `info` to the extra:
/// the span with its extra replaced by what `set_recursive_info` made of it.
/// Nothing is claimed of it.
#[verifier::external_body]
fn span_map_extra<T: Clone + Default, X: HasRecursiveInfo<T>>(
    span: nom_locate::LocatedSpan<T, X>,
    info: RecursiveInfo<T>,
) -> (mapped: nom_locate::LocatedSpan<T, X>) {
    span.map_extra(|extra| extra.set_recursive_info(info))
}

/// An input that carries recursion flags. An impl hands out the flags that
/// were last put in, and changes nothing else of the input when flags are put
/// in.
pub trait HasRecursiveInfo<T: Clone + Default>: Sized {
    /// The flags that the input carries.
    fn get_recursive_info(&self) -> RecursiveInfo<T>;

    /// The input with `info` in place of the flags that it carried.
    fn set_recursive_info(self, info: RecursiveInfo<T>) -> Self;
}

/// An input that can hand out the value it stands at.
pub trait HasRecursiveType<T: Clone + Default> {
    /// The value that the input stands at.
    fn get_value(&self) -> T;
}

impl<T: Clone + Default, U> HasRecursiveType<T> for nom_locate::LocatedSpan<T, U> where
    U: HasRecursiveInfo<T>,
 {
    fn get_value(&self) -> T {
        span_fragment(self).clone()
    }
}

impl<T: Clone + Default, U> HasRecursiveInfo<T> for nom_locate::LocatedSpan<T, U> where
    U: HasRecursiveInfo<T>,
 {
    fn get_recursive_info(&self) -> RecursiveInfo<T> {
        span_extra(self).get_recursive_info()
    }

    fn set_recursive_info(self, info: RecursiveInfo<T>) -> Self {
        span_map_extra(self, info)
    }
}

} // verus!
