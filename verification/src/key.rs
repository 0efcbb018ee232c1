//! Identity keys for registered preprocessors.
//!
//! A key combines a discriminator of the concrete preprocessor type with a
//! digest of the instance's observable state at registration time. It is
//! computed once, when the preprocessor is registered, and never recomputed,
//! so later mutation of the preprocessor's internal state cannot change the
//! key under which its output is published.

use vstd::prelude::*;

verus! {

/// Names one registered preprocessor instance: a discriminator of its
/// concrete type paired with a digest of its configuration state.
///
/// Keys are opaque tokens to the scheduler's logic: all that matters is
/// equality, which holds exactly when both components are equal.
#[derive(Debug, Clone, Copy, PartialEq, Eq, Hash, Structural)]
pub struct RegistrationKey {
    type_tag: u64,
    state_hash: u64,
}

impl RegistrationKey {
    /// Derives the key for `value`: a type discriminator plus a digest of the
    /// value's current field state.
    ///
    /// Relies on `std::any::TypeId::of` to discriminate the concrete type and
    /// on `std::hash::Hash` with `std::collections::hash_map::DefaultHasher`
    /// to digest the type id and the value's fields. Neither digest is
    /// promised anything here: a key is an opaque token, and the scheduler
    /// detects and reports colliding keys instead of trusting them distinct.
    #[verifier::external_body]
    pub(crate) fn new<T: std::hash::Hash + 'static>(value: &T) -> RegistrationKey {
        let mut type_hasher = std::collections::hash_map::DefaultHasher::new();
        std::hash::Hash::hash(&std::any::TypeId::of::<T>(), &mut type_hasher);
        let type_tag = std::hash::Hasher::finish(&type_hasher);
        let mut state_hasher = std::collections::hash_map::DefaultHasher::new();
        std::hash::Hash::hash(value, &mut state_hasher);
        let state_hash = std::hash::Hasher::finish(&state_hasher);
        RegistrationKey { type_tag, state_hash }
    }
}

} // verus!
