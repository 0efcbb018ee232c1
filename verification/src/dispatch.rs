//! Per-tick dispatch: looking up, by identity key, the derived values a
//! system declared as its dependencies.
//!
//! Each tick produces one derived buffer per preprocessor, keyed by that
//! preprocessor's identity key. A system receives exactly the buffers named
//! by its dependency keys, in the order the keys were declared. When keys are
//! unique — the scheduler rejects colliding registrations — "the first entry
//! with the key" is "the entry with the key".

use vstd::prelude::*;

use crate::key::RegistrationKey;

verus! {

/// Some entry of `m` carries the key `k`.
pub open spec fn has_key(m: Seq<(RegistrationKey, Vec<u8>)>, k: RegistrationKey) -> bool {
    exists|i: int| 0 <= i < m.len() && m[i].0 == k
}

/// The bytes of the first entry of `m` carrying the key `k`.
pub open spec fn lookup_bytes(m: Seq<(RegistrationKey, Vec<u8>)>, k: RegistrationKey) -> Seq<u8>
    recommends
        has_key(m, k),
    decreases m.len(),
{
    if m.len() == 0 {
        Seq::empty()
    } else if m[0].0 == k {
        m[0].1@
    } else {
        lookup_bytes(m.drop_first(), k)
    }
}

/// `lookup_bytes` returns the bytes at the first position holding the key.
proof fn lemma_lookup_bytes_at(m: Seq<(RegistrationKey, Vec<u8>)>, k: RegistrationKey, j: int)
    requires
        0 <= j < m.len(),
        m[j].0 == k,
        forall|l: int| 0 <= l < j ==> m[l].0 != k,
    ensures
        lookup_bytes(m, k) == m[j].1@,
    decreases m.len(),
{
    if j > 0 {
        let rest = m.drop_first();
        assert(forall|l: int| 0 <= l < j - 1 ==> rest[l] == m[l + 1]);
        lemma_lookup_bytes_at(rest, k, j - 1);
    }
}

/// Finds the first entry of `m` whose key is `k`.
fn find_key(m: &Vec<(RegistrationKey, Vec<u8>)>, k: RegistrationKey) -> (r: Option<usize>)
    ensures
        match r {
            Some(j) => j < m@.len() && m@[j as int].0 == k && (forall|l: int|
                0 <= l < j ==> m@[l].0 != k),
            None => !has_key(m@, k),
        },
{
    let mut j: usize = 0;
    while j < m.len()
        invariant
            j <= m@.len(),
            forall|l: int| 0 <= l < j ==> m@[l].0 != k,
        decreases m@.len() - j,
    {
        if m[j].0 == k {
            return Some(j);
        }
        j = j + 1;
    }
    None
}

/// An owned copy of the given bytes.
fn copy_bytes(src: &Vec<u8>) -> (r: Vec<u8>)
    ensures
        r@ == src@,
{
    let mut out: Vec<u8> = Vec::new();
    let mut i: usize = 0;
    while i < src.len()
        invariant
            i <= src@.len(),
            out@ == src@.subrange(0, i as int),
        decreases src@.len() - i,
    {
        out.push(src[i]);
        proof {
            assert(out@ =~= src@.subrange(0, i + 1 as int));
        }
        i = i + 1;
    }
    proof {
        assert(out@ =~= src@);
    }
    out
}

/// The values a system with dependency keys `deps` receives from the tick's
/// derived-value table `tick_values`: for each dependency key, in declaration
/// order, the bytes published under that key. `None` exactly when some
/// dependency key has no entry — the configuration error the scheduler
/// rejects at registration, so its own dispatch never sees it.
pub fn gather_inputs(tick_values: &Vec<(RegistrationKey, Vec<u8>)>, deps: &Vec<RegistrationKey>)
    -> (r: Option<Vec<Vec<u8>>>)
    ensures
        match r {
            Some(vals) => vals@.len() == deps@.len() && (forall|i: int|
                0 <= i < deps@.len() ==> has_key(tick_values@, #[trigger] deps@[i])
                    && vals@[i]@ == lookup_bytes(tick_values@, deps@[i])),
            None => exists|i: int| 0 <= i < deps@.len() && !has_key(tick_values@, deps@[i]),
        },
{
    let mut vals: Vec<Vec<u8>> = Vec::new();
    let mut i: usize = 0;
    while i < deps.len()
        invariant
            i <= deps@.len(),
            vals@.len() == i,
            forall|j: int|
                0 <= j < i ==> has_key(tick_values@, #[trigger] deps@[j]) && vals@[j]@
                    == lookup_bytes(tick_values@, deps@[j]),
        decreases deps@.len() - i,
    {
        match find_key(tick_values, deps[i]) {
            Some(j) => {
                proof {
                    lemma_lookup_bytes_at(tick_values@, deps@[i as int], j as int);
                }
                vals.push(copy_bytes(&tick_values[j].1));
            },
            None => {
                return None;
            },
        }
        i = i + 1;
    }
    Some(vals)
}

} // verus!
