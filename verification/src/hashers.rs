//! The hash builders of the hash maps that the semantic tables use.

use vstd::prelude::*;

verus! {

/// `rustc_hash::FxBuildHasher`, the hasher builder of `rustc_hash::FxHashMap`.
#[verifier::external_type_specification]
#[verifier::external_body]
pub struct ExRustcFxBuildHasher(rustc_hash::FxBuildHasher);

/// `std::hash::BuildHasherDefault`, which `fxhash::FxBuildHasher` instantiates.
#[verifier::external_type_specification]
#[verifier::external_body]
#[verifier::reject_recursive_types(H)]
pub struct ExBuildHasherDefault<H>(core::hash::BuildHasherDefault<H>);

/// `fxhash::FxHasher`, the hasher of `fxhash::FxHashMap`.
#[verifier::external_type_specification]
#[verifier::external_body]
pub struct ExFxHasher(fxhash::FxHasher);

} // verus!
