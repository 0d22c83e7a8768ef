//! The general laws of the membership set, proved over its model.
//!
//! Each law is stated against the same model sequences that the executable
//! operations' contracts speak of, so it composes with them: `insert`
//! appends a fresh entry, `take` and `discard` remove exactly the handle's
//! entry, and a pass of the read guard yields `filtered` of the snapshot.

use crate::model::distinct_tokens;
use crate::model::filtered;
use crate::model::has_token;
use crate::model::index_of_token;
use crate::model::lemma_has_token_step;
use crate::model::lemma_index_of_token;
use crate::model::lemma_push_value;
use crate::model::lemma_remove_drop_first;
use crate::model::lemma_remove_token;
use crate::model::lemma_value_of_step;
use crate::model::remove_token;
use crate::model::value_of;
use vstd::prelude::*;

verus! {

/// Membership invariant: at any quiescent point, an unfiltered pass yields
/// exactly one value per identity the set currently holds, in storage
/// order — no entry is skipped and nothing else appears. Together with the
/// contracts of `insert`, `take` and `discard`, which add or remove exactly
/// the handle's own entry, the identities a pass reflects are exactly the
/// handles that are alive and not yet taken.
pub proof fn lemma_membership_iteration<T>(entries: Seq<(u64, T)>)
    ensures
        filtered(entries, None::<u64>).len() == entries.len(),
        forall|i: int|
            0 <= i < entries.len() ==> #[trigger] filtered(entries, None::<u64>)[i] == entries[i].1,
    decreases entries.len(),
{
    if entries.len() > 0 {
        let rest = entries.drop_first();
        lemma_membership_iteration(rest);
        let f = filtered(entries, None::<u64>);
        assert(f == seq![entries[0].1] + filtered(rest, None::<u64>));
        assert forall|i: int| 0 <= i < entries.len() implies #[trigger] f[i] == entries[i].1 by {
            if i > 0 {
                assert(f[i] == filtered(rest, None::<u64>)[i - 1]);
                assert(rest[i - 1] == entries[i]);
            }
        }
    }
}

/// Idempotent removal: an identity below the set's issue bound that is not
/// present never reappears. Inserting — which always issues the bound
/// itself, a fresh token — cannot bring it back, and neither can any
/// removal. So once a handle has been taken or discarded, its identity is
/// gone from every later pass.
pub proof fn lemma_retired_identity_stays_out<T>(
    entries: Seq<(u64, T)>,
    bound: u64,
    t: u64,
    item: T,
)
    requires
        t < bound,
        !has_token(entries, t),
    ensures
        !has_token(entries.push((bound, item)), t),
        forall|u: u64| !has_token(#[trigger] remove_token(entries, u), t),
{
    lemma_push_value(entries, bound, item, t);
    assert forall|u: u64| !has_token(#[trigger] remove_token(entries, u), t) by {
        if has_token(entries, u) {
            let k = index_of_token(entries, u);
            lemma_index_of_token(entries, u);
            entries.remove_ensures(k);
            let r = entries.remove(k);
            if has_token(r, t) {
                let m = choose|m: int| 0 <= m < r.len() && (#[trigger] r[m]).0 == t;
                if m < k {
                    assert(r[m] == entries[m]);
                } else {
                    assert(r[m] == entries[m + 1]);
                }
            }
        }
    }
}

/// Exclusion correctness: a pass that excludes token `t` yields exactly
/// what an unfiltered pass yields minus `t`'s entry when `t` is present,
/// and exactly the unfiltered pass when it is not — as when the excluded
/// handle belongs to a different set.
pub proof fn lemma_exclusion_correct<T>(entries: Seq<(u64, T)>, t: u64)
    requires
        distinct_tokens(entries),
    ensures
        !has_token(entries, t) ==> filtered(entries, Some(t)) == filtered(entries, None::<u64>),
        has_token(entries, t) ==> filtered(entries, Some(t)) == filtered(
            remove_token(entries, t),
            None::<u64>,
        ),
    decreases entries.len(),
{
    if entries.len() > 0 {
        let rest = entries.drop_first();
        assert(distinct_tokens(rest)) by {
            assert forall|i: int, j: int| 0 <= i < j < rest.len() implies (#[trigger] rest[i]).0
                != (#[trigger] rest[j]).0 by {
                assert(rest[i] == entries[i + 1]);
                assert(rest[j] == entries[j + 1]);
            }
        }
        lemma_has_token_step(entries, t);
        lemma_exclusion_correct(rest, t);
        if entries[0].0 == t {
            assert(index_of_token(entries, t) == 0);
            assert(entries.remove(0) =~= rest);
            assert(!has_token(rest, t)) by {
                if has_token(rest, t) {
                    let i = choose|i: int| 0 <= i < rest.len() && (#[trigger] rest[i]).0 == t;
                    assert(rest[i] == entries[i + 1]);
                }
            }
            assert(filtered(entries, Some(t)) == filtered(rest, Some(t)));
        } else {
            assert(filtered(entries, Some(t)) == seq![entries[0].1] + filtered(rest, Some(t)));
            assert(filtered(entries, None::<u64>) == seq![entries[0].1] + filtered(
                rest,
                None::<u64>,
            ));
            if has_token(entries, t) {
                lemma_value_of_step(entries, t);
                let k = index_of_token(rest, t);
                lemma_index_of_token(rest, t);
                lemma_remove_drop_first(entries, 1 + k);
                let rt = remove_token(rest, t);
                assert(remove_token(entries, t) == seq![entries[0]] + rt);
                let c = seq![entries[0]] + rt;
                assert(c.drop_first() =~= rt);
                assert(c[0] == entries[0]);
                assert(filtered(c, None::<u64>) == seq![entries[0].1] + filtered(rt, None::<u64>));
            }
        }
    }
}

/// Value integrity, first half: `insert` binds the fresh identity to the
/// inserted value itself, so a `take` right after returns that exact value.
pub proof fn lemma_insert_binds_value<T>(entries: Seq<(u64, T)>, t: u64, item: T)
    requires
        !has_token(entries, t),
    ensures
        has_token(entries.push((t, item)), t),
        value_of(entries.push((t, item)), t) == item,
{
    lemma_push_value(entries, t, item, t);
}

/// Value integrity, second half: no operation on another identity — an
/// insert of a fresh entry or a removal — disturbs the value stored under
/// `t`; the container itself never mutates a stored value. So whatever
/// happens around it, `take` still returns exactly what `insert` stored.
pub proof fn lemma_unrelated_ops_keep_value<T>(
    entries: Seq<(u64, T)>,
    t: u64,
    u: u64,
    unrelated: T,
)
    requires
        distinct_tokens(entries),
        has_token(entries, t),
        u != t,
    ensures
        has_token(entries.push((u, unrelated)), t),
        value_of(entries.push((u, unrelated)), t) == value_of(entries, t),
        has_token(remove_token(entries, u), t),
        value_of(remove_token(entries, u), t) == value_of(entries, t),
{
    lemma_push_value(entries, u, unrelated, t);
    if has_token(entries, u) {
        lemma_remove_token(entries, u);
    }
}

} // verus!
