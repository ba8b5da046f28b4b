//! The delivery and conservation laws of the primitive, stated over the
//! registry model that the operations' contracts use and proved once and for
//! all.

use crate::model::{
    all_unnotified, contains_id, count_notified, count_unnotified, delivered, deliver_up_to,
    first_unnotified, index_of_id, lemma_all_unnotified_counts, lemma_count_unnotified_zero,
    lemma_counts_remove, lemma_counts_split, lemma_deliver_compose, lemma_deliver_count,
    lemma_deliver_pointwise, lemma_first_unnotified, lemma_index_of_id, min_nat,
    notify_additional_budget, notify_budget, release_entries, EntryModel,
};
use vstd::prelude::*;

verus! {

/// In a registry with no credit delivered yet, every prefix holds exactly as
/// many waiting entries as its own length.
proof fn lemma_unnotified_prefix(s: Seq<EntryModel>, i: int)
    requires
        0 <= i <= s.len(),
        all_unnotified(s),
    ensures
        count_unnotified(s.take(i)) == i,
{
    assert forall|j: int| 0 <= j < s.take(i).len() implies !(#[trigger] s.take(i)[j]).notified by {
        assert(!s[j].notified);
    }
    lemma_all_unnotified_counts(s.take(i));
}

/// After `notify(k)` on freshly registered listeners — `k` at most the
/// listener count and not the sentinel — exactly the first `k` listeners in
/// registration order are notified, and a further `notify(k2)` with
/// `k2 <= k` has a zero budget, so it delivers nothing.
pub proof fn lemma_notify_first_k(s: Seq<EntryModel>, k: usize, k2: usize)
    requires
        all_unnotified(s),
        k as nat <= s.len(),
        k < usize::MAX,
        k2 <= k,
    ensures
        notify_budget(s, k) == k as nat,
        deliver_up_to(s, k as nat).len() == s.len(),
        forall|i: int|
            0 <= i < s.len() ==> ((#[trigger] deliver_up_to(s, k as nat)[i]).notified <==> i < k
                as nat),
        forall|i: int|
            0 <= i < s.len() ==> (#[trigger] deliver_up_to(s, k as nat)[i]).id == s[i].id,
        count_notified(deliver_up_to(s, k as nat)) == k as nat,
        notify_budget(deliver_up_to(s, k as nat), k2) == 0,
        deliver_up_to(deliver_up_to(s, k as nat), 0) == deliver_up_to(s, k as nat),
{
    lemma_all_unnotified_counts(s);
    lemma_deliver_pointwise(s, k as nat);
    assert forall|i: int| 0 <= i < s.len() implies ((#[trigger] deliver_up_to(s, k as nat)[
    i]).notified <==> i < k as nat) by {
        lemma_unnotified_prefix(s, i);
        assert(!s[i].notified);
    }
    lemma_deliver_count(s, k as nat);
}

/// `notify(k)` followed by `notify(k2)` with `k < k2`, both within the
/// listener count, delivers exactly `k2 - k` further credits: together the
/// first `k2` listeners are notified.
pub proof fn lemma_notify_top_up(s: Seq<EntryModel>, k: usize, k2: usize)
    requires
        all_unnotified(s),
        k < k2,
        k2 as nat <= s.len(),
        k2 < usize::MAX,
    ensures
        notify_budget(s, k) == k as nat,
        notify_budget(deliver_up_to(s, k as nat), k2) == (k2 - k) as nat,
        deliver_up_to(deliver_up_to(s, k as nat), (k2 - k) as nat) == deliver_up_to(
            s,
            k2 as nat,
        ),
        count_notified(deliver_up_to(s, k2 as nat)) == k2 as nat,
        forall|i: int|
            0 <= i < s.len() ==> ((#[trigger] deliver_up_to(s, k2 as nat)[i]).notified <==> i < k2
                as nat),
{
    lemma_notify_first_k(s, k, k);
    lemma_notify_first_k(s, k2, k2);
    lemma_deliver_compose(s, k as nat, (k2 - k) as nat);
}

/// `notify_additional(m)` after `notify(k)` on freshly registered listeners
/// delivers `m` further credits regardless of `k`, capped only by the
/// listener count: in total the first `k + m` listeners, capped at the
/// count, are notified.
pub proof fn lemma_notify_additional_adds(s: Seq<EntryModel>, k: usize, m: usize)
    requires
        all_unnotified(s),
        k as nat <= s.len(),
        k < usize::MAX,
        m < usize::MAX,
    ensures
        notify_additional_budget(deliver_up_to(s, k as nat), m) == min_nat(m as nat, s.len()),
        deliver_up_to(deliver_up_to(s, k as nat), min_nat(m as nat, s.len())) == deliver_up_to(
            s,
            k as nat + min_nat(m as nat, s.len()),
        ),
        count_notified(deliver_up_to(s, k as nat + min_nat(m as nat, s.len()))) == min_nat(
            k as nat + m as nat,
            s.len(),
        ),
        forall|i: int|
            0 <= i < s.len() ==> ((#[trigger] deliver_up_to(
                s,
                k as nat + min_nat(m as nat, s.len()),
            )[i]).notified <==> i < k as nat + m as nat),
{
    lemma_all_unnotified_counts(s);
    lemma_deliver_pointwise(s, k as nat);
    lemma_deliver_compose(s, k as nat, min_nat(m as nat, s.len()));
    lemma_deliver_count(s, k as nat + min_nat(m as nat, s.len()));
    lemma_deliver_pointwise(s, k as nat + min_nat(m as nat, s.len()));
    assert forall|i: int| 0 <= i < s.len() implies ((#[trigger] deliver_up_to(
        s,
        k as nat + min_nat(m as nat, s.len()),
    )[i]).notified <==> i < k as nat + m as nat) by {
        lemma_unnotified_prefix(s, i);
        assert(!s[i].notified);
    }
}

/// Once set, an entry's notified flag survives every delivery — whatever the
/// budget, credits are only added, never taken back, while the entry stays
/// registered — and an entry's id never changes.
pub proof fn lemma_notified_is_stable(s: Seq<EntryModel>, b: nat)
    ensures
        deliver_up_to(s, b).len() == s.len(),
        forall|i: int|
            0 <= i < s.len() && (#[trigger] s[i]).notified ==> deliver_up_to(s, b)[i].notified,
        forall|i: int|
            0 <= i < s.len() ==> (#[trigger] deliver_up_to(s, b)[i]).id == s[i].id,
{
    lemma_deliver_pointwise(s, b);
}

/// `notify(usize::MAX)` — and with it `notify_all` — notifies every
/// currently registered listener, whatever was delivered before.
pub proof fn lemma_notify_all_covers(s: Seq<EntryModel>)
    ensures
        notify_budget(s, usize::MAX) == s.len(),
        deliver_up_to(s, s.len()).len() == s.len(),
        forall|i: int| 0 <= i < s.len() ==> (#[trigger] deliver_up_to(s, s.len())[i]).notified,
        forall|i: int|
            0 <= i < s.len() ==> (#[trigger] deliver_up_to(s, s.len())[i]).id == s[i].id,
        count_notified(deliver_up_to(s, s.len())) == s.len(),
{
    lemma_deliver_pointwise(s, s.len());
    assert forall|i: int| 0 <= i < s.len() implies (#[trigger] deliver_up_to(s, s.len())[
    i]).notified by {
        lemma_counts_split(s.take(i));
        assert(count_unnotified(s.take(i)) <= i);
    }
    lemma_deliver_count(s, s.len());
    lemma_counts_split(s);
}

/// Releasing a notified listener while at least one waiting listener remains
/// promotes exactly the earliest-registered waiting one — every entry before
/// it keeps its flag, as does every entry after it — and the total notified
/// count is conserved.
pub proof fn lemma_release_promotes_earliest(s: Seq<EntryModel>, id: nat)
    requires
        contains_id(s, id),
        s[index_of_id(s, id)].notified,
        count_unnotified(s.remove(index_of_id(s, id))) > 0,
    ensures
        ({
            let rest = s.remove(index_of_id(s, id));
            let fu = first_unnotified(rest);
            &&& 0 <= fu < rest.len()
            &&& !rest[fu].notified
            &&& (forall|j: int| 0 <= j < fu ==> (#[trigger] rest[j]).notified)
            &&& release_entries(s, id) == rest.update(fu, delivered(rest[fu]))
            &&& count_notified(release_entries(s, id)) == count_notified(s)
        }),
{
    lemma_index_of_id(s, id);
    let i = index_of_id(s, id);
    let rest = s.remove(i);
    let fu = first_unnotified(rest);
    lemma_first_unnotified(rest);
    lemma_deliver_pointwise(rest, 1);
    assert forall|j: int| 0 <= j < rest.len() implies deliver_up_to(rest, 1)[j] == rest.update(
        fu,
        delivered(rest[fu]),
    )[j] by {
        if j < fu {
            assert(rest[j].notified);
        } else if j == fu {
            assert forall|a: int| 0 <= a < rest.take(fu).len() implies (#[trigger] rest.take(fu)[
            a]).notified by {
                assert(rest[a].notified);
            }
            lemma_count_unnotified_zero(rest.take(fu));
        } else {
            if !rest[j].notified {
                assert(rest.take(j)[fu] == rest[fu]);
                lemma_count_unnotified_zero(rest.take(j));
            }
        }
    }
    assert(deliver_up_to(rest, 1) =~= rest.update(fu, delivered(rest[fu])));
    lemma_deliver_count(rest, 1);
    lemma_counts_remove(s, i);
}

/// Releasing a notified listener when every remaining listener is already
/// notified just drops the credit: the remaining entries are untouched and
/// the notified count goes down by one.
pub proof fn lemma_release_no_waiter(s: Seq<EntryModel>, id: nat)
    requires
        contains_id(s, id),
        s[index_of_id(s, id)].notified,
        count_unnotified(s.remove(index_of_id(s, id))) == 0,
    ensures
        release_entries(s, id) == s.remove(index_of_id(s, id)),
        count_notified(release_entries(s, id)) + 1 == count_notified(s),
{
    lemma_index_of_id(s, id);
    let i = index_of_id(s, id);
    let rest = s.remove(i);
    lemma_deliver_pointwise(rest, 1);
    lemma_count_unnotified_zero(rest);
    assert(deliver_up_to(rest, 1) =~= rest);
    lemma_counts_remove(s, i);
}

/// Releasing a still-waiting listener never affects another entry: its own
/// entry goes and the rest keep their flags and callbacks.
pub proof fn lemma_release_unnotified(s: Seq<EntryModel>, id: nat)
    requires
        contains_id(s, id),
        !s[index_of_id(s, id)].notified,
    ensures
        release_entries(s, id) == s.remove(index_of_id(s, id)),
        count_notified(release_entries(s, id)) == count_notified(s),
{
    lemma_index_of_id(s, id);
    lemma_counts_remove(s, index_of_id(s, id));
}

} // verus!
