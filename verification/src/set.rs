//! The membership set, its ownership handles, and the read-locked view.

use crate::model::distinct_tokens;
use crate::model::filtered;
use crate::model::has_token;
use crate::model::index_of_token;
use crate::model::lemma_filtered_skip_step;
use crate::model::lemma_index_of_first;
use crate::model::lemma_push_value;
use crate::model::lemma_remove_token;
use crate::model::remove_token;
use crate::model::tokens_below;
use crate::model::value_of;
use vstd::prelude::*;

verus! {

/// A membership set over externally owned items.
///
/// The set records, for each live item, an identity token and the item's
/// storage slot. It never ends an item's life itself: only the `ItemOwner`
/// returned by `insert` can remove the item, by `take` or `discard`.
///
/// Identity is the pair of a caller-chosen set identifier and a per-set
/// monotonic token, so a handle can be told apart from every handle of
/// another set as long as the caller gives distinct identifiers to distinct
/// sets; operations handed a handle of a foreign set leave the set unchanged.
pub struct ExternalSet<T> {
    set_id: u64,
    next_token: u64,
    entries: Vec<(u64, T)>,
}

impl<T> View for ExternalSet<T> {
    type V = Seq<(u64, T)>;

    closed spec fn view(&self) -> Seq<(u64, T)> {
        self.entries@
    }
}

impl<T> ExternalSet<T> {
    /// The caller-chosen identifier of this set.
    pub closed spec fn id(self) -> u64 {
        self.set_id
    }

    /// How many tokens this set has issued; every live token is below it.
    pub closed spec fn issued(self) -> u64 {
        self.next_token
    }

    /// Well-formedness: tokens are pairwise distinct and below `issued`.
    pub open spec fn wf(self) -> bool {
        distinct_tokens(self@) && tokens_below(self@, self.issued())
    }

    /// Does the set currently hold an entry under token `t`?
    pub open spec fn contains_token(self, t: u64) -> bool {
        has_token(self@, t)
    }

    /// Creates an empty set with the given identifier. Callers that work
    /// with several sets at once give each a distinct identifier, so that a
    /// handle of one set is never mistaken for a handle of another.
    pub fn new(set_id: u64) -> (s: Self)
        ensures
            s.wf(),
            s@ == Seq::<(u64, T)>::empty(),
            s.id() == set_id,
            s.issued() == 0,
    {
        ExternalSet { set_id, next_token: 0, entries: Vec::new() }
    }

    /// Moves `item` into set-managed storage under a fresh identity and
    /// returns the handle that owns it. The entry stays in the set exactly
    /// until that handle ends it by `take` or `discard`.
    pub fn insert(&mut self, item: T) -> (h: ItemOwner)
        requires
            old(self).wf(),
            old(self).issued() < u64::MAX,
        ensures
            final(self).wf(),
            h.set_id() == old(self).id(),
            h.token() == old(self).issued(),
            !old(self).contains_token(h.token()),
            final(self)@ == old(self)@.push((h.token(), item)),
            final(self).id() == old(self).id(),
            final(self).issued() == old(self).issued() + 1,
            h.in_set(*final(self)),
            value_of(final(self)@, h.token()) == item,
            forall|u: u64|
                u != h.token() ==> (final(self).contains_token(u) <==> old(self).contains_token(
                    u,
                )),
            forall|u: u64|
                u != h.token() && old(self).contains_token(u) ==> value_of(final(self)@, u)
                    == value_of(old(self)@, u),
    {
        let token = self.next_token;
        proof {
            assert(!has_token(self.entries@, token));
            assert forall|u: u64| true implies {
                &&& has_token(self.entries@.push((token, item)), u) <==> (u == token || has_token(
                    self.entries@,
                    u,
                ))
                &&& u == token ==> value_of(self.entries@.push((token, item)), token) == item
                &&& u != token && has_token(self.entries@, u) ==> value_of(
                    self.entries@.push((token, item)),
                    u,
                ) == value_of(self.entries@, u)
            } by {
                lemma_push_value(self.entries@, token, item, u);
            }
        }
        self.next_token = self.next_token + 1;
        self.entries.push((token, item));
        ItemOwner { set_id: self.set_id, token }
    }

    /// Acquires a read-locked view of the set. The guard borrows the set
    /// shared, so further guards may coexist with it, while any mutation
    /// (`insert`, `take`, `discard`) is excluded until every guard is gone:
    /// the guard's view is a consistent snapshot for its whole lifetime.
    pub fn lock<'c>(&'c self) -> (g: ExternalSetReadGuard<'c, T>)
        ensures
            g@ == self@,
            g.id() == self.id(),
    {
        ExternalSetReadGuard { set: self }
    }

    /// The index of the entry carrying token `t`, if one is present.
    fn position_of(&self, t: u64) -> (r: Option<usize>)
        ensures
            match r {
                Some(i) => i < self@.len() && self@[i as int].0 == t && self.contains_token(t)
                    && index_of_token(self@, t) == i as int,
                None => !self.contains_token(t),
            },
    {
        let n = self.entries.len();
        let mut i: usize = 0;
        while i < n
            invariant
                i <= n,
                n == self.entries@.len(),
                forall|j: int| 0 <= j < i ==> (#[trigger] self.entries@[j]).0 != t,
            decreases n - i,
        {
            if self.entries[i].0 == t {
                proof {
                    lemma_index_of_first(self.entries@, t, i as int);
                }
                return Some(i);
            }
            i = i + 1;
        }
        None
    }
}

/// The single-owner handle of one item in an `ExternalSet`.
///
/// A handle is the capability over its item: it alone reads the value
/// (`get`) and it alone ends the item's membership, either by `take`, which
/// returns the value, or by `discard`, which drops it. Both consume the
/// handle, so an identity, once removed, can never be acted on again.
pub struct ItemOwner {
    set_id: u64,
    token: u64,
}

impl ItemOwner {
    /// The identifier of the set this handle was issued by.
    pub closed spec fn set_id(self) -> u64 {
        self.set_id
    }

    /// The identity token of the owned item.
    pub closed spec fn token(self) -> u64 {
        self.token
    }

    /// Does this handle's item currently sit in `s`?
    pub open spec fn in_set<T>(self, s: ExternalSet<T>) -> bool {
        self.set_id() == s.id() && s.contains_token(self.token())
    }

    /// Removes the handle's item from `set` and returns its value. When
    /// the handle's item is not in `set` — as when the handle was issued by
    /// a different set — nothing is removed and `None` is returned.
    pub fn take<T>(self, set: &mut ExternalSet<T>) -> (r: Option<T>)
        requires
            old(set).wf(),
        ensures
            final(set).wf(),
            final(set).id() == old(set).id(),
            final(set).issued() == old(set).issued(),
            r == (if self.in_set(*old(set)) {
                Some(value_of(old(set)@, self.token()))
            } else {
                None::<T>
            }),
            final(set)@ == (if self.in_set(*old(set)) {
                remove_token(old(set)@, self.token())
            } else {
                old(set)@
            }),
            self.set_id() == old(set).id() ==> !final(set).contains_token(self.token()),
            forall|u: u64|
                u != self.token() ==> (final(set).contains_token(u) <==> old(set).contains_token(
                    u,
                )),
            forall|u: u64|
                u != self.token() && old(set).contains_token(u) ==> value_of(final(set)@, u)
                    == value_of(old(set)@, u),
    {
        if self.set_id != set.set_id {
            return None;
        }
        match set.position_of(self.token) {
            Some(i) => {
                proof {
                    lemma_remove_token(set.entries@, self.token);
                }
                let (_token, value) = set.entries.remove(i);
                Some(value)
            },
            None => None,
        }
    }

    /// Removes the handle's item from `set` and drops its value: the same
    /// effect on the set as `take`, differing only in that the value is
    /// discarded instead of returned.
    pub fn discard<T>(self, set: &mut ExternalSet<T>)
        requires
            old(set).wf(),
        ensures
            final(set).wf(),
            final(set).id() == old(set).id(),
            final(set).issued() == old(set).issued(),
            final(set)@ == (if self.in_set(*old(set)) {
                remove_token(old(set)@, self.token())
            } else {
                old(set)@
            }),
            self.set_id() == old(set).id() ==> !final(set).contains_token(self.token()),
            forall|u: u64|
                u != self.token() ==> (final(set).contains_token(u) <==> old(set).contains_token(
                    u,
                )),
            forall|u: u64|
                u != self.token() && old(set).contains_token(u) ==> value_of(final(set)@, u)
                    == value_of(old(set)@, u),
    {
        let _value = self.take(set);
    }

    /// Reads the owned value inside `set`. Returns `None` exactly when the
    /// handle's item is not in `set`, as when the handle was issued by a
    /// different set.
    pub fn get<'a, T>(&self, set: &'a ExternalSet<T>) -> (r: Option<&'a T>)
        ensures
            self.in_set(*set) ==> (r matches Some(v) && *v == value_of(set@, self.token())),
            !self.in_set(*set) ==> r == None::<&'a T>,
    {
        if self.set_id != set.set_id {
            return None;
        }
        match set.position_of(self.token) {
            Some(i) => Some(&set.entries[i].1),
            None => None,
        }
    }

    /// Writes through the handle: a mutable borrow of the owned value
    /// inside `set`. Only the value behind this handle's identity can
    /// change through it; `None` exactly when the handle's item is not in
    /// `set`.
    pub fn get_mut<'a, T>(&self, set: &'a mut ExternalSet<T>) -> (r: Option<&'a mut T>)
        requires
            old(set).wf(),
        ensures
            final(set).wf(),
            final(set).id() == old(set).id(),
            final(set).issued() == old(set).issued(),
            self.in_set(*old(set)) ==> (r matches Some(v) && *v == value_of(
                old(set)@,
                self.token(),
            ) && final(set)@ == old(set)@.update(
                index_of_token(old(set)@, self.token()),
                (self.token(), *final(v)),
            )),
            !self.in_set(*old(set)) ==> r == None::<&'a mut T> && final(set)@ == old(set)@,
    {
        if self.set_id != set.set_id {
            return None;
        }
        match set.position_of(self.token) {
            Some(i) => Some(&mut set.entries[i].1),
            None => None,
        }
    }
}

/// A read-locked view of an `ExternalSet`: a shared borrow of the set that
/// stands for the read side of the lock. While any guard lives, the set
/// cannot be mutated, so every pass over the guard sees one consistent
/// snapshot; guards of the same set may coexist freely.
pub struct ExternalSetReadGuard<'c, T> {
    set: &'c ExternalSet<T>,
}

impl<'c, T> View for ExternalSetReadGuard<'c, T> {
    type V = Seq<(u64, T)>;

    closed spec fn view(&self) -> Seq<(u64, T)> {
        self.set@
    }
}

impl<'c, T> ExternalSetReadGuard<'c, T> {
    /// The identifier of the guarded set.
    pub closed spec fn id(self) -> u64 {
        self.set.id()
    }

    /// A fresh pass over the snapshot, yielding a reference to every item.
    /// The pass is restartable: each call starts over on the same snapshot.
    pub fn iter(&self) -> (it: ExternalSetIter<'c, T>)
        ensures
            it.wf(),
            it.entries() == self@,
            it.except() == None::<u64>,
            it.remaining() == filtered(self@, None::<u64>),
    {
        proof {
            assert(self.set@.skip(0) =~= self.set@);
        }
        ExternalSetIter { set: self.set, pos: 0, except: None }
    }

    /// A fresh pass over the snapshot that skips the item owned by
    /// `except`. When `except` belongs to another set — in particular, when
    /// it was issued by a set with a different identifier — nothing is
    /// skipped and the pass yields every item.
    pub fn others(&self, except: &ItemOwner) -> (it: ExternalSetIter<'c, T>)
        ensures
            it.wf(),
            it.entries() == self@,
            it.except() == (if except.set_id() == self.id() {
                Some(except.token())
            } else {
                None::<u64>
            }),
            it.remaining() == filtered(self@, it.except()),
    {
        proof {
            assert(self.set@.skip(0) =~= self.set@);
        }
        let e = if except.set_id == self.set.set_id {
            Some(except.token)
        } else {
            None
        };
        ExternalSetIter { set: self.set, pos: 0, except: e }
    }
}

/// A single pass over a read-locked snapshot, in storage order, optionally
/// skipping one identity.
pub struct ExternalSetIter<'g, T> {
    set: &'g ExternalSet<T>,
    pos: usize,
    except: Option<u64>,
}

impl<'g, T> ExternalSetIter<'g, T> {
    /// The snapshot this pass walks.
    pub closed spec fn entries(self) -> Seq<(u64, T)> {
        self.set@
    }

    /// How far the pass has come.
    pub closed spec fn pos(self) -> int {
        self.pos as int
    }

    /// The identity this pass skips, if any.
    pub closed spec fn except(self) -> Option<u64> {
        self.except
    }

    /// The pass never stands beyond the snapshot's end.
    pub open spec fn wf(self) -> bool {
        self.pos() <= self.entries().len()
    }

    /// The values this pass has yet to yield, in order.
    pub open spec fn remaining(self) -> Seq<T> {
        filtered(self.entries().skip(self.pos()), self.except())
    }

    /// Yields a reference to the next item of the pass, or `None` when the
    /// pass is done.
    pub fn next(&mut self) -> (r: Option<&'g T>)
        requires
            old(self).wf(),
        ensures
            final(self).wf(),
            final(self).entries() == old(self).entries(),
            final(self).except() == old(self).except(),
            old(self).remaining().len() == 0 ==> r == None::<&'g T> && final(self).remaining()
                == old(self).remaining(),
            old(self).remaining().len() > 0 ==> (r matches Some(v) && *v
                == old(self).remaining()[0] && final(self).remaining()
                == old(self).remaining().drop_first()),
    {
        let set = self.set;
        let n = set.entries.len();
        while self.pos < n
            invariant
                self.set == set,
                set == old(self).set,
                self.except == old(self).except,
                n == set.entries@.len(),
                old(self).pos() <= self.pos as int <= n,
                filtered(set.entries@.skip(self.pos as int), self.except)
                    == old(self).remaining(),
            decreases n - self.pos,
        {
            let p = self.pos;
            proof {
                lemma_filtered_skip_step(set.entries@, p as int, self.except);
            }
            let entry = &set.entries[p];
            self.pos = p + 1;
            let excluded = match self.except {
                Some(e) => e == entry.0,
                None => false,
            };
            if !excluded {
                proof {
                    assert((seq![entry.1] + filtered(
                        set.entries@.skip(p as int + 1),
                        self.except,
                    )).drop_first() =~= filtered(set.entries@.skip(p as int + 1), self.except));
                }
                return Some(&entry.1);
            }
        }
        proof {
            assert(set.entries@.skip(self.pos as int) =~= Seq::empty());
        }
        None
    }
}

} // verus!
