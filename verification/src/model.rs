//! The mathematical model of the registry: a sequence of entries in
//! registration order, and the functions that say what each operation does
//! to it.

use vstd::prelude::*;

verus! {

/// One registry entry as the contracts see it: its registration id, whether a
/// notification credit has been delivered to it, and whether a resumption
/// callback is currently stored for it.
pub ghost struct EntryModel {
    pub id: nat,
    pub notified: bool,
    pub has_waker: bool,
}

/// An entry right after a credit settles on it: the notified flag is set and
/// the stored resumption callback, if any, has been taken and invoked.
pub open spec fn delivered(e: EntryModel) -> EntryModel {
    EntryModel { id: e.id, notified: true, has_waker: false }
}

/// How many entries of `s` hold a notification credit.
pub open spec fn count_notified(s: Seq<EntryModel>) -> nat
    decreases s.len(),
{
    if s.len() == 0 {
        0
    } else {
        (if s[0].notified {
            1nat
        } else {
            0nat
        }) + count_notified(s.drop_first())
    }
}

/// How many entries of `s` are still waiting for a credit.
pub open spec fn count_unnotified(s: Seq<EntryModel>) -> nat
    decreases s.len(),
{
    if s.len() == 0 {
        0
    } else {
        (if s[0].notified {
            0nat
        } else {
            1nat
        }) + count_unnotified(s.drop_first())
    }
}

/// Delivers up to `budget` credits, walking the entries in registration order
/// and skipping those already notified.
pub open spec fn deliver_up_to(s: Seq<EntryModel>, budget: nat) -> Seq<EntryModel>
    decreases s.len(),
{
    if s.len() == 0 || budget == 0 {
        s
    } else if s[0].notified {
        seq![s[0]] + deliver_up_to(s.drop_first(), budget)
    } else {
        seq![delivered(s[0])] + deliver_up_to(s.drop_first(), (budget - 1) as nat)
    }
}

/// The delivery budget of `notify(n)`: with the sentinel, one credit per
/// entry; otherwise just enough to top the total notified count up to `n`.
pub open spec fn notify_budget(s: Seq<EntryModel>, n: usize) -> nat {
    if n == usize::MAX {
        s.len()
    } else if n > count_notified(s) {
        (n - count_notified(s)) as nat
    } else {
        0
    }
}

/// The delivery budget of `notify_additional(n)`: `n` more credits, capped by
/// the number of registered entries and unaffected by the current notified
/// count.
pub open spec fn notify_additional_budget(s: Seq<EntryModel>, n: usize) -> nat {
    if n == usize::MAX {
        s.len()
    } else if n < s.len() {
        n as nat
    } else {
        s.len()
    }
}

/// The position of the entry with registration id `id`, or -1 if there is
/// none.
pub open spec fn index_of_id(s: Seq<EntryModel>, id: nat) -> int
    decreases s.len(),
{
    if s.len() == 0 {
        -1
    } else if s[0].id == id {
        0
    } else if index_of_id(s.drop_first(), id) < 0 {
        -1
    } else {
        index_of_id(s.drop_first(), id) + 1
    }
}

/// Whether an entry with registration id `id` is present.
pub open spec fn contains_id(s: Seq<EntryModel>, id: nat) -> bool {
    index_of_id(s, id) >= 0
}

/// Whether the entry with registration id `id` is present and holds a credit.
pub open spec fn id_is_notified(s: Seq<EntryModel>, id: nat) -> bool {
    contains_id(s, id) && s[index_of_id(s, id)].notified
}

/// The entries after a resumption callback is stored for the entry with id
/// `id`, replacing any stale one.
pub open spec fn store_waker(s: Seq<EntryModel>, id: nat) -> Seq<EntryModel>
    recommends
        contains_id(s, id),
{
    let i = index_of_id(s, id);
    s.update(i, EntryModel { id: s[i].id, notified: s[i].notified, has_waker: true })
}

/// The entries after the listener with id `id` is released: its entry is
/// removed, and a credit it held is passed to the earliest waiting entry.
pub open spec fn release_entries(s: Seq<EntryModel>, id: nat) -> Seq<EntryModel> {
    let i = index_of_id(s, id);
    if i < 0 {
        s
    } else if s[i].notified {
        deliver_up_to(s.remove(i), 1)
    } else {
        s.remove(i)
    }
}

/// The position of the earliest entry still waiting for a credit, or -1 if
/// none is.
pub open spec fn first_unnotified(s: Seq<EntryModel>) -> int
    decreases s.len(),
{
    if s.len() == 0 {
        -1
    } else if !s[0].notified {
        0
    } else if first_unnotified(s.drop_first()) < 0 {
        -1
    } else {
        first_unnotified(s.drop_first()) + 1
    }
}

/// Entries stand in strictly ascending id order, so sequence order is
/// registration order.
pub open spec fn ids_ascending(s: Seq<EntryModel>) -> bool {
    forall|i: int, j: int| 0 <= i < j < s.len() ==> s[i].id < s[j].id
}

/// No entry holds a credit yet.
pub open spec fn all_unnotified(s: Seq<EntryModel>) -> bool {
    forall|i: int| 0 <= i < s.len() ==> !(#[trigger] s[i]).notified
}

/// The smaller of two counts.
pub open spec fn min_nat(a: nat, b: nat) -> nat {
    if a <= b {
        a
    } else {
        b
    }
}

/// Prepending one entry shifts the counts by that entry's own contribution.
proof fn lemma_cons_counts(x: EntryModel, t: Seq<EntryModel>)
    ensures
        count_notified(seq![x] + t) == (if x.notified {
            1nat
        } else {
            0nat
        }) + count_notified(t),
        count_unnotified(seq![x] + t) == (if x.notified {
            0nat
        } else {
            1nat
        }) + count_unnotified(t),
{
    assert((seq![x] + t).drop_first() =~= t);
    assert((seq![x] + t)[0] == x);
}

/// Together, the notified and the waiting entries make up the whole registry.
pub proof fn lemma_counts_split(s: Seq<EntryModel>)
    ensures
        count_notified(s) + count_unnotified(s) == s.len(),
    decreases s.len(),
{
    if s.len() != 0 {
        lemma_counts_split(s.drop_first());
    }
}

/// Appending an entry adds its own contribution to the notified count.
pub proof fn lemma_count_notified_push(a: Seq<EntryModel>, e: EntryModel)
    ensures
        count_notified(a.push(e)) == count_notified(a) + (if e.notified {
            1nat
        } else {
            0nat
        }),
    decreases a.len(),
{
    if a.len() == 0 {
        assert(a.push(e).drop_first() =~= a);
        assert(a.push(e)[0] == e);
    } else {
        assert(a.push(e).drop_first() =~= a.drop_first().push(e));
        assert(a.push(e)[0] == a[0]);
        lemma_count_notified_push(a.drop_first(), e);
    }
}

/// Appending an entry adds its own contribution to the waiting count.
pub proof fn lemma_count_unnotified_push(a: Seq<EntryModel>, e: EntryModel)
    ensures
        count_unnotified(a.push(e)) == count_unnotified(a) + (if e.notified {
            0nat
        } else {
            1nat
        }),
    decreases a.len(),
{
    if a.len() == 0 {
        assert(a.push(e).drop_first() =~= a);
        assert(a.push(e)[0] == e);
    } else {
        assert(a.push(e).drop_first() =~= a.drop_first().push(e));
        assert(a.push(e)[0] == a[0]);
        lemma_count_unnotified_push(a.drop_first(), e);
    }
}

/// The counts distribute over concatenation.
pub proof fn lemma_counts_concat(a: Seq<EntryModel>, b: Seq<EntryModel>)
    ensures
        count_notified(a + b) == count_notified(a) + count_notified(b),
        count_unnotified(a + b) == count_unnotified(a) + count_unnotified(b),
    decreases a.len(),
{
    if a.len() == 0 {
        assert(a + b =~= b);
    } else {
        assert((a + b)[0] == a[0]);
        assert((a + b).drop_first() =~= a.drop_first() + b);
        lemma_counts_concat(a.drop_first(), b);
    }
}

/// Delivery over a widened sequence: the appended entry receives a credit
/// exactly when it is waiting and the budget is not used up by the entries
/// before it.
pub proof fn lemma_deliver_push(a: Seq<EntryModel>, e: EntryModel, b: nat)
    ensures
        deliver_up_to(a.push(e), b) == deliver_up_to(a, b).push(
            if !e.notified && count_unnotified(a) < b {
                delivered(e)
            } else {
                e
            },
        ),
    decreases a.len(),
{
    if b == 0 {
        assert(deliver_up_to(a, 0).push(e) =~= a.push(e));
    } else if a.len() == 0 {
        assert(a.push(e)[0] == e);
        assert(a.push(e).drop_first() =~= Seq::<EntryModel>::empty());
        assert(deliver_up_to(Seq::<EntryModel>::empty(), b) == Seq::<EntryModel>::empty());
        assert(deliver_up_to(Seq::<EntryModel>::empty(), (b - 1) as nat)
            == Seq::<EntryModel>::empty());
        if e.notified {
            assert(deliver_up_to(a.push(e), b) =~= a.push(e));
            assert(deliver_up_to(a, b).push(e) =~= a.push(e));
        } else {
            assert(deliver_up_to(a.push(e), b) =~= seq![delivered(e)]);
            assert(deliver_up_to(a, b).push(delivered(e)) =~= seq![delivered(e)]);
        }
    } else {
        let ad = a.drop_first();
        assert(a.push(e)[0] == a[0]);
        assert(a.push(e).drop_first() =~= ad.push(e));
        if a[0].notified {
            lemma_deliver_push(ad, e, b);
            assert(count_unnotified(a) == count_unnotified(ad));
            assert(seq![a[0]] + deliver_up_to(ad, b).push(
                if !e.notified && count_unnotified(ad) < b {
                    delivered(e)
                } else {
                    e
                },
            ) =~= (seq![a[0]] + deliver_up_to(ad, b)).push(
                if !e.notified && count_unnotified(a) < b {
                    delivered(e)
                } else {
                    e
                },
            ));
        } else {
            lemma_deliver_push(ad, e, (b - 1) as nat);
            assert(count_unnotified(a) == 1 + count_unnotified(ad));
            assert(seq![delivered(a[0])] + deliver_up_to(ad, (b - 1) as nat).push(
                if !e.notified && count_unnotified(ad) < (b - 1) as nat {
                    delivered(e)
                } else {
                    e
                },
            ) =~= (seq![delivered(a[0])] + deliver_up_to(ad, (b - 1) as nat)).push(
                if !e.notified && count_unnotified(a) < b {
                    delivered(e)
                } else {
                    e
                },
            ));
        }
    }
}

/// Once the budget is used up within a prefix, delivery leaves the rest of
/// the registry untouched.
pub proof fn lemma_deliver_exhausted(s: Seq<EntryModel>, i: int, b: nat)
    requires
        0 <= i <= s.len(),
        count_unnotified(s.take(i)) >= b,
    ensures
        deliver_up_to(s, b) == deliver_up_to(s.take(i), b) + s.skip(i),
    decreases s.len(),
{
    if b == 0 {
        assert(deliver_up_to(s.take(i), 0) + s.skip(i) =~= s);
    } else if i == 0 {
        assert(s.take(0) =~= Seq::<EntryModel>::empty());
    } else {
        let sd = s.drop_first();
        assert(s.take(i)[0] == s[0]);
        assert(s.take(i).drop_first() =~= sd.take(i - 1));
        assert(s.skip(i) =~= sd.skip(i - 1));
        if s[0].notified {
            assert(count_unnotified(s.take(i)) == count_unnotified(sd.take(i - 1)));
            lemma_deliver_exhausted(sd, i - 1, b);
            assert(seq![s[0]] + (deliver_up_to(sd.take(i - 1), b) + sd.skip(i - 1)) =~= (seq![
                s[0],
            ] + deliver_up_to(sd.take(i - 1), b)) + s.skip(i));
        } else {
            assert(count_unnotified(s.take(i)) == 1 + count_unnotified(sd.take(i - 1)));
            lemma_deliver_exhausted(sd, i - 1, (b - 1) as nat);
            assert(seq![delivered(s[0])] + (deliver_up_to(sd.take(i - 1), (b - 1) as nat)
                + sd.skip(i - 1)) =~= (seq![delivered(s[0])] + deliver_up_to(
                sd.take(i - 1),
                (b - 1) as nat,
            )) + s.skip(i));
        }
    }
}

/// What delivery does to each entry: the entry at `i` receives a credit
/// exactly when it is waiting and fewer than `b` waiting entries stand before
/// it; every other entry is untouched.
pub proof fn lemma_deliver_pointwise(s: Seq<EntryModel>, b: nat)
    ensures
        deliver_up_to(s, b).len() == s.len(),
        forall|i: int|
            0 <= i < s.len() ==> deliver_up_to(s, b)[i] == (if !s[i].notified && count_unnotified(
                s.take(i),
            ) < b {
                delivered(s[i])
            } else {
                s[i]
            }),
    decreases s.len(),
{
    if s.len() == 0 || b == 0 {
        assert forall|i: int| 0 <= i < s.len() implies deliver_up_to(s, b)[i] == (
        if !s[i].notified && count_unnotified(s.take(i)) < b {
            delivered(s[i])
        } else {
            s[i]
        }) by {
            assert(count_unnotified(s.take(i)) >= 0);
        }
    } else {
        let sd = s.drop_first();
        let bd = if s[0].notified {
            b
        } else {
            (b - 1) as nat
        };
        lemma_deliver_pointwise(sd, bd);
        assert forall|i: int| 0 <= i < s.len() implies deliver_up_to(s, b)[i] == (
        if !s[i].notified && count_unnotified(s.take(i)) < b {
            delivered(s[i])
        } else {
            s[i]
        }) by {
            if i == 0 {
                assert(s.take(0) =~= Seq::<EntryModel>::empty());
            } else {
                assert(deliver_up_to(s, b)[i] == deliver_up_to(sd, bd)[i - 1]);
                assert(s.take(i)[0] == s[0]);
                assert(s.take(i).drop_first() =~= sd.take(i - 1));
                assert(sd[i - 1] == s[i]);
            }
        }
    }
}

/// Delivery settles exactly as many credits as the budget and the number of
/// waiting entries allow.
pub proof fn lemma_deliver_count(s: Seq<EntryModel>, b: nat)
    ensures
        count_notified(deliver_up_to(s, b)) == count_notified(s) + min_nat(
            b,
            count_unnotified(s),
        ),
        count_unnotified(deliver_up_to(s, b)) == count_unnotified(s) - min_nat(
            b,
            count_unnotified(s),
        ),
    decreases s.len(),
{
    if s.len() == 0 || b == 0 {
    } else {
        let sd = s.drop_first();
        if s[0].notified {
            lemma_deliver_count(sd, b);
            lemma_cons_counts(s[0], deliver_up_to(sd, b));
        } else {
            lemma_deliver_count(sd, (b - 1) as nat);
            lemma_cons_counts(delivered(s[0]), deliver_up_to(sd, (b - 1) as nat));
        }
    }
}

/// Delivering `a` credits and then `b` more is delivering `a + b` at once.
pub proof fn lemma_deliver_compose(s: Seq<EntryModel>, a: nat, b: nat)
    ensures
        deliver_up_to(deliver_up_to(s, a), b) == deliver_up_to(s, a + b),
    decreases s.len(),
{
    if s.len() == 0 {
    } else if a == 0 {
    } else {
        let sd = s.drop_first();
        if s[0].notified {
            lemma_deliver_compose(sd, a, b);
            let t = deliver_up_to(sd, a);
            assert((seq![s[0]] + t)[0] == s[0]);
            assert((seq![s[0]] + t).drop_first() =~= t);
            if b > 0 {
                assert(deliver_up_to(seq![s[0]] + t, b) == seq![s[0]] + deliver_up_to(t, b));
            }
        } else {
            lemma_deliver_compose(sd, (a - 1) as nat, b);
            let t = deliver_up_to(sd, (a - 1) as nat);
            assert((seq![delivered(s[0])] + t)[0] == delivered(s[0]));
            assert((seq![delivered(s[0])] + t).drop_first() =~= t);
            if b > 0 {
                assert(deliver_up_to(seq![delivered(s[0])] + t, b) == seq![delivered(s[0])]
                    + deliver_up_to(t, b));
            }
            assert((a - 1) as nat + b == (a + b - 1) as nat);
        }
    }
}

/// A registry with no credit delivered yet has a zero notified count and
/// only waiting entries.
pub proof fn lemma_all_unnotified_counts(s: Seq<EntryModel>)
    requires
        all_unnotified(s),
    ensures
        count_notified(s) == 0,
        count_unnotified(s) == s.len(),
    decreases s.len(),
{
    if s.len() != 0 {
        assert(!s[0].notified);
        assert forall|j: int| 0 <= j < s.drop_first().len() implies !(#[trigger] s.drop_first()[j]).notified by {
            assert(!s[j + 1].notified);
        }
        lemma_all_unnotified_counts(s.drop_first());
    }
}

/// What `index_of_id` returns: the position of the first entry with the id,
/// or -1 when no entry has it.
pub proof fn lemma_index_of_id(s: Seq<EntryModel>, id: nat)
    ensures
        index_of_id(s, id) < 0 ==> forall|j: int|
            0 <= j < s.len() ==> (#[trigger] s[j]).id != id,
        index_of_id(s, id) >= 0 ==> {
            &&& index_of_id(s, id) < s.len()
            &&& s[index_of_id(s, id)].id == id
            &&& forall|j: int| 0 <= j < index_of_id(s, id) ==> (#[trigger] s[j]).id != id
        },
    decreases s.len(),
{
    if s.len() != 0 && s[0].id != id {
        lemma_index_of_id(s.drop_first(), id);
        let r = index_of_id(s.drop_first(), id);
        if r >= 0 {
            assert forall|j: int| 0 <= j < r + 1 implies (#[trigger] s[j]).id != id by {
                if j > 0 {
                    assert(s.drop_first()[j - 1].id != id);
                }
            }
        } else {
            assert forall|j: int| 0 <= j < s.len() implies (#[trigger] s[j]).id != id by {
                if j > 0 {
                    assert(s.drop_first()[j - 1].id != id);
                }
            }
        }
    }
}

/// No entry is waiting exactly when every entry is notified.
pub proof fn lemma_count_unnotified_zero(s: Seq<EntryModel>)
    ensures
        (count_unnotified(s) == 0) <==> (forall|j: int|
            0 <= j < s.len() ==> (#[trigger] s[j]).notified),
    decreases s.len(),
{
    if s.len() != 0 {
        lemma_count_unnotified_zero(s.drop_first());
        if count_unnotified(s) == 0 {
            assert forall|j: int| 0 <= j < s.len() implies (#[trigger] s[j]).notified by {
                if j > 0 {
                    assert(s.drop_first()[j - 1].notified);
                }
            }
        } else {
            if forall|j: int| 0 <= j < s.len() ==> (#[trigger] s[j]).notified {
                assert forall|j: int|
                    0 <= j < s.drop_first().len() implies (#[trigger] s.drop_first()[j]).notified by {
                    assert(s[j + 1].notified);
                }
            }
        }
    }
}

/// What `first_unnotified` returns: the position of the earliest waiting
/// entry — every entry before it is notified — or -1 when all are notified.
pub proof fn lemma_first_unnotified(s: Seq<EntryModel>)
    ensures
        first_unnotified(s) < 0 ==> count_unnotified(s) == 0,
        first_unnotified(s) >= 0 ==> {
            &&& first_unnotified(s) < s.len()
            &&& !s[first_unnotified(s)].notified
            &&& forall|j: int| 0 <= j < first_unnotified(s) ==> (#[trigger] s[j]).notified
        },
    decreases s.len(),
{
    if s.len() != 0 && s[0].notified {
        lemma_first_unnotified(s.drop_first());
        let r = first_unnotified(s.drop_first());
        if r >= 0 {
            assert forall|j: int| 0 <= j < r + 1 implies (#[trigger] s[j]).notified by {
                if j > 0 {
                    assert(s.drop_first()[j - 1].notified);
                }
            }
        }
    }
}

/// Replacing one entry with one whose notified flag agrees keeps the counts.
pub proof fn lemma_counts_update_same_flag(s: Seq<EntryModel>, i: int, e: EntryModel)
    requires
        0 <= i < s.len(),
        e.notified == s[i].notified,
    ensures
        count_notified(s.update(i, e)) == count_notified(s),
        count_unnotified(s.update(i, e)) == count_unnotified(s),
    decreases s.len(),
{
    if i == 0 {
        assert(s.update(0, e)[0] == e);
        assert(s.update(0, e).drop_first() =~= s.drop_first());
    } else {
        assert(s.update(i, e)[0] == s[0]);
        assert(s.update(i, e).drop_first() =~= s.drop_first().update(i - 1, e));
        lemma_counts_update_same_flag(s.drop_first(), i - 1, e);
    }
}

/// Removing one entry takes away its own contribution to the counts.
pub proof fn lemma_counts_remove(s: Seq<EntryModel>, i: int)
    requires
        0 <= i < s.len(),
    ensures
        count_notified(s.remove(i)) + (if s[i].notified {
            1nat
        } else {
            0nat
        }) == count_notified(s),
        count_unnotified(s.remove(i)) + (if s[i].notified {
            0nat
        } else {
            1nat
        }) == count_unnotified(s),
    decreases s.len(),
{
    if i == 0 {
        assert(s.remove(0) =~= s.drop_first());
    } else {
        assert(s.remove(i)[0] == s[0]);
        assert(s.remove(i).drop_first() =~= s.drop_first().remove(i - 1));
        lemma_counts_remove(s.drop_first(), i - 1);
    }
}

} // verus!
