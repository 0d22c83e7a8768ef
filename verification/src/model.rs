//! The mathematical model of a membership set.
//!
//! A set's state is a sequence of entries, each pairing an identity token
//! with the stored value. The spec functions here say what the executable
//! operations do to that sequence; the lemmas are the facts about them that
//! the implementation and the public laws rest on.

use vstd::prelude::*;

verus! {

/// Does some entry carry token `t`?
pub open spec fn has_token<T>(entries: Seq<(u64, T)>, t: u64) -> bool {
    exists|i: int| 0 <= i < entries.len() && (#[trigger] entries[i]).0 == t
}

/// No two entries carry the same token.
pub open spec fn distinct_tokens<T>(entries: Seq<(u64, T)>) -> bool {
    forall|i: int, j: int|
        0 <= i < j < entries.len() ==> (#[trigger] entries[i]).0 != (#[trigger] entries[j]).0
}

/// Every token is below `bound` (the next token the set would issue).
pub open spec fn tokens_below<T>(entries: Seq<(u64, T)>, bound: u64) -> bool {
    forall|i: int| 0 <= i < entries.len() ==> (#[trigger] entries[i]).0 < bound
}

/// Index of the first entry carrying token `t`; meaningful only when
/// `has_token(entries, t)`.
pub open spec fn index_of_token<T>(entries: Seq<(u64, T)>, t: u64) -> int
    decreases entries.len(),
{
    if entries.len() == 0 {
        0
    } else if entries[0].0 == t {
        0
    } else {
        1 + index_of_token(entries.drop_first(), t)
    }
}

/// The value stored under token `t`; meaningful only when `has_token(entries, t)`.
pub open spec fn value_of<T>(entries: Seq<(u64, T)>, t: u64) -> T {
    entries[index_of_token(entries, t)].1
}

/// The entries with the first occurrence of token `t` removed; the sequence
/// itself when no entry carries `t`.
pub open spec fn remove_token<T>(entries: Seq<(u64, T)>, t: u64) -> Seq<(u64, T)> {
    if has_token(entries, t) {
        entries.remove(index_of_token(entries, t))
    } else {
        entries
    }
}

/// The values an iteration pass yields, in storage order: one per entry,
/// skipping the entries whose token equals `except`.
pub open spec fn filtered<T>(entries: Seq<(u64, T)>, except: Option<u64>) -> Seq<T>
    decreases entries.len(),
{
    if entries.len() == 0 {
        Seq::empty()
    } else {
        let rest = filtered(entries.drop_first(), except);
        if except == Some(entries[0].0) {
            rest
        } else {
            seq![entries[0].1] + rest
        }
    }
}

/// Membership unfolds along the head of the sequence.
pub proof fn lemma_has_token_step<T>(s: Seq<(u64, T)>, u: u64)
    requires
        s.len() > 0,
    ensures
        has_token(s, u) <==> (s[0].0 == u || has_token(s.drop_first(), u)),
{
    if has_token(s, u) && s[0].0 != u {
        let i = choose|i: int| 0 <= i < s.len() && (#[trigger] s[i]).0 == u;
        assert(s.drop_first()[i - 1].0 == u);
    }
    if has_token(s.drop_first(), u) {
        let i = choose|i: int| 0 <= i < s.drop_first().len() && (#[trigger] s.drop_first()[i]).0
            == u;
        assert(s[i + 1].0 == u);
    }
}

/// When `t` is present, `index_of_token` points at the first entry carrying it.
pub proof fn lemma_index_of_token<T>(entries: Seq<(u64, T)>, t: u64)
    requires
        has_token(entries, t),
    ensures
        0 <= index_of_token(entries, t) < entries.len(),
        entries[index_of_token(entries, t)].0 == t,
        forall|j: int| 0 <= j < index_of_token(entries, t) ==> (#[trigger] entries[j]).0 != t,
    decreases entries.len(),
{
    lemma_has_token_step(entries, t);
    if entries.len() > 0 && entries[0].0 != t {
        let rest = entries.drop_first();
        lemma_index_of_token(rest, t);
        assert forall|j: int| 0 <= j < index_of_token(entries, t) implies (#[trigger] entries[j]).0
            != t by {
            if j >= 1 {
                assert(rest[j - 1].0 != t);
            }
        }
    }
}

/// Lookup unfolds along the head of the sequence.
pub proof fn lemma_value_of_step<T>(s: Seq<(u64, T)>, u: u64)
    requires
        s.len() > 0,
        s[0].0 != u,
        has_token(s, u),
    ensures
        index_of_token(s, u) == 1 + index_of_token(s.drop_first(), u),
        value_of(s, u) == value_of(s.drop_first(), u),
{
    lemma_has_token_step(s, u);
    lemma_index_of_token(s.drop_first(), u);
    let k = index_of_token(s.drop_first(), u);
    assert(s[1 + k] == s.drop_first()[k]);
}

/// `index_of_token` finds the first entry carrying `t`.
pub proof fn lemma_index_of_first<T>(s: Seq<(u64, T)>, t: u64, i: int)
    requires
        0 <= i < s.len(),
        s[i].0 == t,
        forall|j: int| 0 <= j < i ==> (#[trigger] s[j]).0 != t,
    ensures
        has_token(s, t),
        index_of_token(s, t) == i,
        value_of(s, t) == s[i].1,
    decreases s.len(),
{
    assert(has_token(s, t));
    if i > 0 {
        let rest = s.drop_first();
        assert forall|j: int| 0 <= j < i - 1 implies (#[trigger] rest[j]).0 != t by {
            assert(rest[j] == s[j + 1]);
        }
        assert(rest[i - 1] == s[i]);
        lemma_index_of_first(rest, t, i - 1);
    }
}

/// One step of an iteration pass: the entry at `i` is either skipped or
/// yielded ahead of the pass over the rest.
pub proof fn lemma_filtered_skip_step<T>(entries: Seq<(u64, T)>, i: int, except: Option<u64>)
    requires
        0 <= i < entries.len(),
    ensures
        except == Some(entries[i].0) ==> filtered(entries.skip(i), except) == filtered(
            entries.skip(i + 1),
            except,
        ),
        except != Some(entries[i].0) ==> filtered(entries.skip(i), except) == seq![entries[i].1]
            + filtered(entries.skip(i + 1), except),
{
    assert(entries.skip(i)[0] == entries[i]);
    assert(entries.skip(i).drop_first() =~= entries.skip(i + 1));
}

/// With pairwise distinct tokens, an entry's index is the index `index_of_token` finds.
pub proof fn lemma_index_unique<T>(s: Seq<(u64, T)>, u: u64, i: int)
    requires
        distinct_tokens(s),
        0 <= i < s.len(),
        s[i].0 == u,
    ensures
        has_token(s, u),
        index_of_token(s, u) == i,
        value_of(s, u) == s[i].1,
{
    assert(has_token(s, u));
    lemma_index_of_token(s, u);
}

/// What removing token `t` does to membership and lookup: `t` leaves, every
/// other token stays with its value, and one entry goes.
pub proof fn lemma_remove_token<T>(entries: Seq<(u64, T)>, t: u64)
    requires
        distinct_tokens(entries),
        has_token(entries, t),
    ensures
        remove_token(entries, t).len() == entries.len() - 1,
        distinct_tokens(remove_token(entries, t)),
        !has_token(remove_token(entries, t), t),
        forall|u: u64|
            u != t ==> (has_token(remove_token(entries, t), u) <==> has_token(entries, u)),
        forall|u: u64|
            u != t && has_token(entries, u) ==> value_of(remove_token(entries, t), u) == value_of(
                entries,
                u,
            ),
        forall|b: u64| tokens_below(entries, b) ==> tokens_below(remove_token(entries, t), b),
{
    let k = index_of_token(entries, t);
    lemma_index_of_token(entries, t);
    let r = entries.remove(k);
    entries.remove_ensures(k);
    assert(remove_token(entries, t) == r);
    assert forall|i: int| 0 <= i < r.len() implies exists|j: int|
        0 <= j < entries.len() && j != k && #[trigger] r[i] == entries[j] by {
        let j = if i < k {
            i
        } else {
            i + 1
        };
        assert(r[i] == entries[j]);
    }
    assert forall|i1: int, i2: int| 0 <= i1 < i2 < r.len() implies (#[trigger] r[i1]).0 != (
    #[trigger] r[i2]).0 by {
        let j1 = if i1 < k {
            i1
        } else {
            i1 + 1
        };
        let j2 = if i2 < k {
            i2
        } else {
            i2 + 1
        };
        assert(r[i1] == entries[j1]);
        assert(r[i2] == entries[j2]);
    }
    assert forall|u: u64| u != t && has_token(entries, u) implies has_token(r, u) && value_of(
        r,
        u,
    ) == value_of(entries, u) by {
        let j = index_of_token(entries, u);
        lemma_index_of_token(entries, u);
        let m = if j < k {
            j
        } else {
            j - 1
        };
        assert(r[m] == entries[j]);
        lemma_index_unique(r, u, m);
        lemma_index_unique(entries, u, j);
    }
    assert forall|u: u64| has_token(r, u) implies u != t && has_token(entries, u) by {
        let m = choose|m: int| 0 <= m < r.len() && (#[trigger] r[m]).0 == u;
        let j = if m < k {
            m
        } else {
            m + 1
        };
        assert(entries[j].0 == u);
    }
}

/// Dropping the first element commutes with pushing one at the back.
pub proof fn lemma_push_drop_first<A>(s: Seq<A>, a: A)
    requires
        s.len() > 0,
    ensures
        s.push(a).drop_first() == s.drop_first().push(a),
{
    assert(s.push(a).drop_first() =~= s.drop_first().push(a));
}

/// Removing at an inner index commutes with dropping the first element.
pub proof fn lemma_remove_drop_first<A>(s: Seq<A>, i: int)
    requires
        1 <= i < s.len(),
    ensures
        s.remove(i) == seq![s[0]] + s.drop_first().remove(i - 1),
{
    assert(s.remove(i) =~= seq![s[0]] + s.drop_first().remove(i - 1));
}

/// How a push at the back affects membership and lookup: it adds token `t`,
/// binds `t` to `item` when `t` was absent, and leaves every other token's
/// value untouched.
pub proof fn lemma_push_value<T>(entries: Seq<(u64, T)>, t: u64, item: T, u: u64)
    ensures
        has_token(entries.push((t, item)), u) <==> (u == t || has_token(entries, u)),
        u == t && !has_token(entries, t) ==> value_of(entries.push((t, item)), t) == item,
        u != t && has_token(entries, u) ==> value_of(entries.push((t, item)), u) == value_of(
            entries,
            u,
        ),
    decreases entries.len(),
{
    let pushed = entries.push((t, item));
    if entries.len() == 0 {
        assert(pushed[0] == (t, item));
        assert(has_token(pushed, t));
        if has_token(pushed, u) {
            let i = choose|i: int| 0 <= i < pushed.len() && (#[trigger] pushed[i]).0 == u;
            assert(i == 0);
        }
        assert(index_of_token(pushed, t) == 0);
    } else {
        let rest = entries.drop_first();
        let prest = pushed.drop_first();
        lemma_push_drop_first(entries, (t, item));
        assert(prest == rest.push((t, item)));
        lemma_push_value(rest, t, item, u);
        lemma_has_token_step(pushed, u);
        lemma_has_token_step(entries, u);
        assert(pushed[0] == entries[0]);
        if u == t && !has_token(entries, t) {
            lemma_has_token_step(entries, t);
            lemma_has_token_step(pushed, t);
            assert(entries[0].0 != t);
            lemma_value_of_step(pushed, t);
        }
        if u != t && has_token(entries, u) {
            if entries[0].0 == u {
                assert(index_of_token(entries, u) == 0);
                assert(index_of_token(pushed, u) == 0);
            } else {
                lemma_value_of_step(entries, u);
                lemma_value_of_step(pushed, u);
            }
        }
    }
}

} // verus!
