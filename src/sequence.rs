//! The mathematical model of a sequenced collection: records listed in key
//! order, the record at position `i` holding key `i + 1`.
use vstd::prelude::*;
use vstd::set_lib::{lemma_int_range, lemma_subset_equality, set_int_range};
use crate::record::Engagement;

verus! {

/// The record `e` with its sequence key set to `k`.
pub open spec fn with_key(e: Engagement, k: int) -> Engagement {
    Engagement { number: k as usize, ..e }
}

/// Keys run `1..=N` along the sequence and no identity occurs twice.
pub open spec fn well_sequenced(s: Seq<Engagement>) -> bool {
    &&& s.len() < usize::MAX
    &&& forall|i: int| 0 <= i < s.len() ==> (#[trigger] s[i]).number == i + 1
    &&& forall|i: int, j: int| 0 <= i < s.len() && 0 <= j < s.len() && i != j
        ==> s[i].id != s[j].id
}

/// The set of sequence keys held by the records of `s`.
pub open spec fn keys_of(s: Seq<Engagement>) -> Set<int> {
    Set::new(|k: int| exists|i: int| 0 <= i < s.len() && (#[trigger] s[i]).number == k)
}

/// Whether some record of `s` has identity `id`.
pub open spec fn holds_id(s: Seq<Engagement>, id: u128) -> bool {
    exists|i: int| 0 <= i < s.len() && (#[trigger] s[i]).id == id
}

/// `s` after storing `r` at key `k`: records keyed below `k` keep their keys,
/// those keyed `k` or above move up by one.
pub open spec fn inserted(s: Seq<Engagement>, r: Engagement, k: int) -> Seq<Engagement> {
    Seq::new(
        (s.len() + 1) as nat,
        |i: int|
            if i < k - 1 {
                s[i]
            } else if i == k - 1 {
                with_key(r, k)
            } else {
                with_key(s[i - 1], s[i - 1].number + 1)
            },
    )
}

/// `s` without the record at position `p`: records after it move down by one.
pub open spec fn removed(s: Seq<Engagement>, p: int) -> Seq<Engagement> {
    Seq::new(
        (s.len() - 1) as nat,
        |i: int| if i < p { s[i] } else { with_key(s[i + 1], s[i + 1].number - 1) },
    )
}

/// `s` after each `(record, key)` of `ops` has been inserted in turn,
/// starting from an empty collection.
pub open spec fn after_inserts(ops: Seq<(Engagement, int)>) -> Seq<Engagement>
    decreases ops.len(),
{
    if ops.len() == 0 {
        Seq::empty()
    } else {
        inserted(after_inserts(ops.drop_last()), ops.last().0, ops.last().1)
    }
}

/// In a well-sequenced collection the keys present are exactly `1..=N`.
pub proof fn lemma_keys_contiguous(s: Seq<Engagement>)
    requires
        well_sequenced(s),
    ensures
        keys_of(s) == Set::new(|k: int| 1 <= k <= s.len()),
{
    assert forall|k: int| 1 <= k <= s.len() implies keys_of(s).contains(k) by {
        assert(s[k - 1].number == k);
    }
    assert(keys_of(s) =~= Set::new(|k: int| 1 <= k <= s.len()));
}

/// Inserting a record with a fresh identity at a key in `1..=N+1` keeps the
/// collection well sequenced, adds that identity and no other, and leaves
/// the keys exactly `1..=N+1`.
pub proof fn lemma_insert_keeps_sequence(s: Seq<Engagement>, r: Engagement, k: int)
    requires
        well_sequenced(s),
        s.len() + 1 < usize::MAX,
        1 <= k <= s.len() + 1,
        !holds_id(s, r.id),
    ensures
        well_sequenced(inserted(s, r, k)),
        forall|id: u128| holds_id(inserted(s, r, k), id) <==> (holds_id(s, id) || id == r.id),
        keys_of(inserted(s, r, k)) == Set::new(|j: int| 1 <= j <= s.len() + 1),
{
    let t = inserted(s, r, k);
    assert forall|a: int, b: int| 0 <= a < t.len() && 0 <= b < t.len() && a != b
        implies t[a].id != t[b].id by {
        if a != k - 1 && b != k - 1 {
            let sa = if a < k - 1 { a } else { a - 1 };
            let sb = if b < k - 1 { b } else { b - 1 };
            assert(t[a].id == s[sa].id);
            assert(t[b].id == s[sb].id);
        } else if a == k - 1 {
            let sb = if b < k - 1 { b } else { b - 1 };
            assert(t[b].id == s[sb].id);
        } else {
            let sa = if a < k - 1 { a } else { a - 1 };
            assert(t[a].id == s[sa].id);
        }
    }
    assert forall|id: u128| holds_id(t, id) <==> (holds_id(s, id) || id == r.id) by {
        if holds_id(s, id) {
            let i = choose|i: int| 0 <= i < s.len() && (#[trigger] s[i]).id == id;
            if i < k - 1 {
                assert(t[i].id == id);
            } else {
                assert(t[i + 1].id == id);
            }
        }
        if id == r.id {
            assert(t[k - 1].id == id);
        }
        if holds_id(t, id) {
            let i = choose|i: int| 0 <= i < t.len() && (#[trigger] t[i]).id == id;
            if i < k - 1 {
                assert(s[i].id == id);
            } else if i > k - 1 {
                assert(s[i - 1].id == id);
            }
        }
    }
    lemma_keys_contiguous(t);
}

/// Removing the record at any position keeps the collection well sequenced
/// with keys exactly `1..=N-1`.
pub proof fn lemma_remove_keeps_sequence(s: Seq<Engagement>, p: int)
    requires
        well_sequenced(s),
        0 <= p < s.len(),
    ensures
        well_sequenced(removed(s, p)),
        keys_of(removed(s, p)) == Set::new(|j: int| 1 <= j <= s.len() - 1),
{
    let t = removed(s, p);
    assert forall|a: int, b: int| 0 <= a < t.len() && 0 <= b < t.len() && a != b
        implies t[a].id != t[b].id by {
        let sa = if a < p { a } else { a + 1 };
        let sb = if b < p { b } else { b + 1 };
        assert(t[a].id == s[sa].id);
        assert(t[b].id == s[sb].id);
    }
    lemma_keys_contiguous(t);
}

/// Inserting a record at key `k` and then removing it again gives back the
/// collection it started from: every other record returns to its former key.
pub proof fn lemma_insert_remove_round_trip(s: Seq<Engagement>, r: Engagement, k: int)
    requires
        well_sequenced(s),
        s.len() + 1 < usize::MAX,
        1 <= k <= s.len() + 1,
    ensures
        removed(inserted(s, r, k), k - 1) == s,
{
    let t = removed(inserted(s, r, k), k - 1);
    assert forall|i: int| 0 <= i < s.len() implies t[i] == s[i] by {
        if i >= k - 1 {
            assert(s[i].number == i + 1);
        }
    }
    assert(t =~= s);
}

/// However the inserts of `M` records with distinct identities interleave,
/// if each requests a key in `1..=n+1` for the `n` records present at its
/// turn, the collection ends well sequenced with keys exactly `1..=M`.
pub proof fn lemma_inserts_fill_keys(ops: Seq<(Engagement, int)>)
    requires
        ops.len() + 1 < usize::MAX,
        forall|i: int| 0 <= i < ops.len() ==> 1 <= (#[trigger] ops[i]).1 <= i + 1,
        forall|i: int, j: int| 0 <= i < ops.len() && 0 <= j < ops.len() && i != j
            ==> ops[i].0.id != ops[j].0.id,
    ensures
        well_sequenced(after_inserts(ops)),
        after_inserts(ops).len() == ops.len(),
        keys_of(after_inserts(ops)) == Set::new(|k: int| 1 <= k <= ops.len()),
        forall|id: u128| holds_id(after_inserts(ops), id)
            <==> exists|i: int| 0 <= i < ops.len() && (#[trigger] ops[i]).0.id == id,
    decreases ops.len(),
{
    if ops.len() == 0 {
        assert(keys_of(after_inserts(ops)) =~= Set::new(|k: int| 1 <= k <= ops.len()));
    } else {
        let pre = ops.drop_last();
        assert forall|i: int| 0 <= i < pre.len() implies 1 <= (#[trigger] pre[i]).1 <= i + 1 by {
            assert(pre[i] == ops[i]);
        }
        lemma_inserts_fill_keys(pre);
        let s = after_inserts(pre);
        let last = ops.last();
        assert(last == ops[ops.len() - 1]);
        if holds_id(s, last.0.id) {
            let i = choose|i: int| 0 <= i < pre.len() && (#[trigger] pre[i]).0.id == last.0.id;
            assert(ops[i].0.id == ops[ops.len() - 1].0.id);
        }
        lemma_insert_keeps_sequence(s, last.0, last.1);
        assert forall|id: u128| holds_id(after_inserts(ops), id)
            <==> exists|i: int| 0 <= i < ops.len() && (#[trigger] ops[i]).0.id == id by {
            if exists|i: int| 0 <= i < ops.len() && (#[trigger] ops[i]).0.id == id {
                let i = choose|i: int| 0 <= i < ops.len() && (#[trigger] ops[i]).0.id == id;
                if i < pre.len() {
                    assert(pre[i] == ops[i]);
                }
            }
            if holds_id(s, id) {
                let i = choose|i: int| 0 <= i < pre.len() && (#[trigger] pre[i]).0.id == id;
                assert(pre[i] == ops[i]);
            }
        }
    }
}

/// In some order, the records of `s` hold each key of `1..=N` once, and no
/// identity occurs twice.
pub open spec fn keyed_exactly(s: Seq<Engagement>) -> bool {
    &&& s.len() < usize::MAX
    &&& forall|i: int| 0 <= i < s.len() ==> 1 <= (#[trigger] s[i]).number <= s.len()
    &&& forall|i: int, j: int| 0 <= i < s.len() && 0 <= j < s.len() && i != j
        ==> s[i].number != s[j].number && s[i].id != s[j].id
}

/// When the records of `s` hold distinct keys within `1..=N`, every key of
/// `1..=N` is held by one of them.
pub proof fn lemma_keys_cover(s: Seq<Engagement>)
    requires
        keyed_exactly(s),
    ensures
        forall|k: int| 1 <= k <= s.len() ==> #[trigger] keys_of(s).contains(k),
{
    let nums = s.map_values(|e: Engagement| e.number as int);
    assert forall|i: int, j: int| 0 <= i < nums.len() && 0 <= j < nums.len() && i != j
        implies nums[i] != nums[j] by {
        assert(s[i].number != s[j].number);
    }
    nums.unique_seq_to_set();
    let range = set_int_range(1, s.len() as int + 1);
    lemma_int_range(1, s.len() as int + 1);
    assert forall|x: int| nums.to_set().contains(x) implies range.contains(x) by {
        let i = choose|i: int| 0 <= i < nums.len() && nums[i] == x;
        assert(1 <= s[i].number <= s.len());
    }
    lemma_subset_equality(nums.to_set(), range);
    assert forall|k: int| 1 <= k <= s.len() implies #[trigger] keys_of(s).contains(k) by {
        assert(range.contains(k));
        assert(nums.to_set().contains(k));
        let i = choose|i: int| 0 <= i < nums.len() && nums[i] == k;
        assert(s[i].number == k);
    }
}

} // verus!
