//! A name-to-handle asset table.
//!
//! The game keeps its renderable handles (images, sounds) behind names;
//! this table maps a name to the handle it was registered under. Loading
//! the handles from disk is the caller's business: the table itself only
//! stores and looks up.

use vstd::prelude::*;

verus! {

/// Relies on str's `PartialEq`: two string slices compare equal exactly
/// when their characters do.
#[verifier::external_body]
fn str_eq(a: &str, b: &str) -> (r: bool)
    ensures
        r == (a@ == b@),
{
    a == b
}

/// An asset table: names and the handles registered under them, in
/// registration order.
pub struct Assets<A> {
    /// The directory the assets were loaded from, kept for pattern lookups.
    pub base_path: String,
    /// Registered `(name, handle)` pairs, oldest first.
    pub items: Vec<(String, A)>,
}

/// The handle most recently registered under `key`, if any.
pub open spec fn spec_lookup<A>(items: Seq<(String, A)>, key: Seq<char>) -> Option<A>
    decreases items.len(),
{
    if items.len() == 0 {
        None
    } else if items.last().0@ == key {
        Some(items.last().1)
    } else {
        spec_lookup(items.drop_last(), key)
    }
}

impl<A> Assets<A> {
    /// An empty table for assets under `base_path`.
    pub fn new(base_path: String) -> (a: Assets<A>)
        ensures
            a.items@.len() == 0,
            a.base_path@ == base_path@,
    {
        Assets { base_path, items: Vec::new() }
    }

    /// Registers `value` under `name`; a later registration under the same
    /// name shadows an earlier one.
    pub fn insert(&mut self, name: String, value: A)
        ensures
            final(self).items@ == old(self).items@.push((name, value)),
            final(self).base_path == old(self).base_path,
    {
        self.items.push((name, value));
    }

    /// Whether some handle is registered under `key`.
    pub fn contains_key(&self, key: &str) -> (b: bool)
        ensures
            b == (spec_lookup(self.items@, key@) is Some),
    {
        let mut i: usize = self.items.len();
        proof {
            assert(self.items@.take(i as int) =~= self.items@);
        }
        while i > 0
            invariant
                i <= self.items@.len(),
                spec_lookup(self.items@.take(i as int), key@) == spec_lookup(self.items@, key@),
            decreases i,
        {
            i -= 1;
            let hit = str_eq(self.items[i].0.as_str(), key);
            proof {
                assert(self.items@.take(i as int + 1).last() == self.items@[i as int]);
                assert(self.items@.take(i as int + 1).drop_last() =~= self.items@.take(i as int));
            }
            if hit {
                return true;
            }
        }
        proof {
            assert(self.items@.take(0).len() == 0);
        }
        false
    }

    /// The handle registered under `key`. The caller checks presence with
    /// `contains_key` first; a name nobody registered is a programmer
    /// error.
    pub fn get(&self, key: &str) -> (res: &A)
        requires
            spec_lookup(self.items@, key@) is Some,
        ensures
            Some(*res) == spec_lookup(self.items@, key@),
    {
        let mut i: usize = self.items.len();
        proof {
            assert(self.items@.take(i as int) =~= self.items@);
        }
        while i > 0
            invariant
                i <= self.items@.len(),
                spec_lookup(self.items@.take(i as int), key@) == spec_lookup(self.items@, key@),
            decreases i,
        {
            i -= 1;
            let hit = str_eq(self.items[i].0.as_str(), key);
            proof {
                assert(self.items@.take(i as int + 1).last() == self.items@[i as int]);
                assert(self.items@.take(i as int + 1).drop_last() =~= self.items@.take(i as int));
            }
            if hit {
                return &self.items[i].1;
            }
        }
        proof {
            assert(self.items@.take(0).len() == 0);
            assert(false);
        }
        vstd::pervasive::unreached()
    }
}

} // verus!
