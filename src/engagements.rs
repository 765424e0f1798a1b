//! The sequenced engagement repository.
use vstd::prelude::*;
use crate::error::RepoError;
use crate::outside::{random_identity, today_text};
use crate::record::{
    copy_opt_text, eng_matches, field_check, is_built_from, is_cleaned, key_of_text, parse_key,
    Engagement, EngagementQuery, NewEngagement, DATE_FORMAT,
};
use crate::sequence::{
    holds_id, inserted, keyed_exactly, keys_of, lemma_keys_cover, lemma_remove_keeps_sequence, removed,
    well_sequenced, with_key,
};

verus! {

/// `who`, a space and `today`: the editor stamp of a new engagement.
pub open spec fn creation_stamp(who: Seq<char>, today: Seq<char>) -> Seq<char> {
    who + seq![' '] + today
}

/// `who`, a space and `today`: the editor stamp of an edited engagement.
pub open spec fn edit_stamp(who: Option<String>, today: Seq<char>) -> Seq<char> {
    match who {
        Some(w) => w@ + seq![' '] + today,
        None => seq![' '] + today,
    }
}

/// Engagements held in key order; the record at position `i` has key `i + 1`.
pub struct EngagementRepo {
    records: Vec<Engagement>,
}

impl View for EngagementRepo {
    type V = Seq<Engagement>;

    closed spec fn view(&self) -> Seq<Engagement> {
        self.records@
    }
}

impl EngagementRepo {
    /// The repository's invariant: keys `1..=N` in order, identities distinct.
    pub open spec fn wf(&self) -> bool {
        well_sequenced(self@)
    }

    /// An empty repository.
    pub fn new() -> (r: EngagementRepo)
        ensures
            r.wf(),
            r@ == Seq::<Engagement>::empty(),
    {
        EngagementRepo { records: Vec::new() }
    }

    /// The number of records held.
    pub fn len(&self) -> (n: usize)
        ensures
            n == self@.len(),
    {
        self.records.len()
    }

    /// Whether no record is held.
    pub fn is_empty(&self) -> (b: bool)
        ensures
            b == (self@.len() == 0),
    {
        self.records.len() == 0
    }

    /// The position of the record with identity `id`, if one is held.
    fn position_of(&self, id: u128) -> (r: Option<usize>)
        ensures
            match r {
                Some(p) => p < self@.len() && self@[p as int].id == id,
                None => !holds_id(self@, id),
            },
    {
        let mut i: usize = 0;
        while i < self.records.len()
            invariant
                i <= self@.len(),
                forall|j: int| 0 <= j < i ==> (#[trigger] self@[j]).id != id,
            decreases self@.len() - i,
        {
            if self.records[i].id == id {
                return Some(i);
            }
            i = i + 1;
        }
        None
    }

    /// Stores `rec` at sequence key `key`, shifting every record keyed `key`
    /// or above up by one.
    pub fn insert(&mut self, rec: Engagement, key: usize) -> (r: Result<(), RepoError>)
        requires
            old(self).wf(),
            old(self)@.len() + 1 < usize::MAX,
        ensures
            final(self).wf(),
            r == Err::<(), RepoError>(RepoError::InvalidKey) <==> !(1 <= key <= old(self)@.len() + 1),
            r == Err::<(), RepoError>(RepoError::DuplicateId) <==> (1 <= key <= old(self)@.len() + 1
                && holds_id(old(self)@, rec.id)),
            r is Ok <==> (1 <= key <= old(self)@.len() + 1 && !holds_id(old(self)@, rec.id)),
            r is Ok ==> final(self)@ == inserted(old(self)@, rec, key as int),
            r is Err ==> final(self)@ == old(self)@,
    {
        if key < 1 || key > self.records.len() + 1 {
            return Err(RepoError::InvalidKey);
        }
        if self.position_of(rec.id).is_some() {
            return Err(RepoError::DuplicateId);
        }
        let ghost s = self@;
        let mut rec = rec;
        rec.number = key;
        self.records.insert(key - 1, rec);
        let mut i: usize = key;
        while i < self.records.len()
            invariant
                s.len() + 1 == self@.len(),
                key <= i <= self@.len(),
                self@.len() < usize::MAX,
                forall|j: int| 0 <= j < i ==> #[trigger] self@[j] == inserted(s, rec, key as int)[j],
                forall|j: int| i <= j < self@.len() ==> #[trigger] self@[j] == s[j - 1] && 1 <= j,
                well_sequenced(s),
            decreases self@.len() - i,
        {
            let ghost prev = self@;
            self.records[i].number = i + 1;
            proof {
                assert(s[i - 1].number == i);
                assert(self@[i as int] == with_key(prev[i as int], i + 1));
                assert(self@[i as int] == inserted(s, rec, key as int)[i as int]);
                assert(forall|j: int| 0 <= j < self@.len() && j != i ==> self@[j] == prev[j]);
            }
            i = i + 1;
        }
        assert(self@ =~= inserted(s, rec, key as int));
        Ok(())
    }

    /// Removes the record with identity `id`, shifting every record keyed
    /// above it down by one.
    pub fn delete(&mut self, id: u128) -> (r: Result<(), RepoError>)
        requires
            old(self).wf(),
        ensures
            final(self).wf(),
            r is Ok <==> holds_id(old(self)@, id),
            r is Err ==> r == Err::<(), RepoError>(RepoError::NotFound) && final(self)@ == old(self)@,
            forall|p: int| 0 <= p < old(self)@.len() && (#[trigger] old(self)@[p]).id == id
                ==> final(self)@ == removed(old(self)@, p),
    {
        let pos = self.position_of(id);
        let p = match pos {
            Some(p) => p,
            None => {
                return Err(RepoError::NotFound);
            },
        };
        let ghost s = self@;
        self.records.remove(p);
        let mut i: usize = p;
        while i < self.records.len()
            invariant
                s.len() == self@.len() + 1,
                p <= i <= self@.len(),
                p < s.len(),
                forall|j: int| 0 <= j < i ==> #[trigger] self@[j] == removed(s, p as int)[j],
                forall|j: int| i <= j < self@.len() ==> #[trigger] self@[j] == s[j + 1],
                well_sequenced(s),
            decreases self@.len() - i,
        {
            let ghost prev = self@;
            self.records[i].number = i + 1;
            proof {
                assert(s[i + 1].number == i + 2);
                assert(self@[i as int] == with_key(prev[i as int], i + 1));
                assert(self@[i as int] == removed(s, p as int)[i as int]);
                assert(forall|j: int| 0 <= j < self@.len() && j != i ==> self@[j] == prev[j]);
            }
            i = i + 1;
        }
        assert(self@ =~= removed(s, p as int));
        proof {
            lemma_remove_keeps_sequence(s, p as int);
            assert forall|q: int| 0 <= q < s.len() && (#[trigger] s[q]).id == id implies q == p by {
                if q != p {
                    assert(s[q].id != s[p as int].id);
                }
            }
        }
        Ok(())
    }

    /// Replaces the payload of the record with `rec`'s identity; the record
    /// keeps its place and key.
    pub fn update(&mut self, rec: Engagement) -> (r: Result<(), RepoError>)
        requires
            old(self).wf(),
        ensures
            final(self).wf(),
            r is Ok <==> holds_id(old(self)@, rec.id),
            r is Err ==> r == Err::<(), RepoError>(RepoError::NotFound) && final(self)@ == old(self)@,
            forall|p: int| 0 <= p < old(self)@.len() && (#[trigger] old(self)@[p]).id == rec.id
                ==> final(self)@ == old(self)@.update(p, with_key(rec, p + 1)),
    {
        let p = match self.position_of(rec.id) {
            Some(p) => p,
            None => {
                return Err(RepoError::NotFound);
            },
        };
        let ghost s = self@;
        let mut rec = rec;
        rec.number = p + 1;
        self.records.set(p, rec);
        proof {
            assert forall|q: int| 0 <= q < s.len() && (#[trigger] s[q]).id == rec.id implies q == p by {
                if q != p {
                    assert(s[q].id != s[p as int].id);
                }
            }
            assert forall|a: int, b: int| 0 <= a < self@.len() && 0 <= b < self@.len() && a != b
                implies self@[a].id != self@[b].id by {
                assert(self@[a].id == s[a].id);
                assert(self@[b].id == s[b].id);
            }
        }
        Ok(())
    }

    /// The records that pass `q`, in ascending key order.
    pub fn query(&self, q: &EngagementQuery) -> (r: Vec<Engagement>)
        requires
            self.wf(),
        ensures
            r@ == self@.filter(|e: Engagement| eng_matches(*q, e)),
            forall|a: int, b: int| 0 <= a < b < r@.len() ==> r@[a].number < r@[b].number,
    {
        let ghost f = |e: Engagement| eng_matches(*q, e);
        let mut out: Vec<Engagement> = Vec::new();
        let mut i: usize = 0;
        while i < self.records.len()
            invariant
                self.wf(),
                f == (|e: Engagement| eng_matches(*q, e)),
                i <= self@.len(),
                out@ == self@.subrange(0, i as int).filter(f),
                forall|a: int| 0 <= a < out@.len() ==> (#[trigger] out@[a]).number <= i,
                forall|a: int, b: int| 0 <= a < b < out@.len() ==> out@[a].number < out@[b].number,
            decreases self@.len() - i,
        {
            let ghost sub = self@.subrange(0, i + 1);
            proof {
                assert(sub.drop_last() =~= self@.subrange(0, i as int));
                assert(sub.last() == self@[i as int]);
                reveal(Seq::filter);
                assert(sub.filter(f) == if f(sub.last()) {
                    sub.drop_last().filter(f).push(sub.last())
                } else {
                    sub.drop_last().filter(f)
                });
            }
            let ghost before = out@;
            let keep = q.matches(&self.records[i]);
            assert(keep == f(sub.last()));
            if keep {
                out.push(self.records[i].copied());
                assert(out@ == before.push(sub.last()));
            }
            assert(out@ == sub.filter(f));
            i = i + 1;
        }
        assert(self@.subrange(0, self@.len() as int) =~= self@);
        out
    }

    /// A copy of every record, in key order.
    pub fn records(&self) -> (r: Vec<Engagement>)
        ensures
            r@ == self@,
    {
        let mut out: Vec<Engagement> = Vec::new();
        let mut i: usize = 0;
        while i < self.records.len()
            invariant
                i <= self@.len(),
                out@ == self@.subrange(0, i as int),
            decreases self@.len() - i,
        {
            out.push(self.records[i].copied());
            i = i + 1;
            assert(out@ =~= self@.subrange(0, i as int));
        }
        assert(self@.subrange(0, self@.len() as int) =~= self@);
        out
    }

    /// Restore-if-empty: an empty repository takes `records`, listed in any
    /// order, as its whole contents in key order, provided they hold each key
    /// of `1..=N` once and distinct identities; a repository that holds
    /// anything is left untouched.
    pub fn restore(&mut self, records: Vec<Engagement>) -> (r: Result<bool, RepoError>)
        requires
            old(self).wf(),
        ensures
            final(self).wf(),
            old(self)@.len() > 0 ==> r == Ok::<bool, RepoError>(false) && final(self)@ == old(self)@,
            old(self)@.len() == 0 && keyed_exactly(records@) ==> r == Ok::<bool, RepoError>(true)
                && final(self)@.len() == records@.len() && forall|i: int|
                0 <= i < records@.len() ==> final(self)@[(#[trigger] records@[i]).number - 1] == records@[i],
            old(self)@.len() == 0 && !keyed_exactly(records@) ==> r == Err::<bool, RepoError>(
                RepoError::SnapshotDecodeFailed,
            ) && final(self)@ == old(self)@,
    {
        if self.records.len() > 0 {
            return Ok(false);
        }
        if !is_keyed_exactly(&records) {
            return Err(RepoError::SnapshotDecodeFailed);
        }
        self.records = place_by_key(&records);
        Ok(true)
    }

    /// Creates the engagement that `new` describes, with identity `id` and
    /// editor stamp `today`, at the key that `new.number` writes.
    pub fn add_with(&mut self, new: &NewEngagement, id: u128, today: &str) -> (r: Result<(), RepoError>)
        requires
            old(self).wf(),
            old(self)@.len() + 1 < usize::MAX,
        ensures
            final(self).wf(),
            r is Err ==> final(self)@ == old(self)@,
            match field_check(new.date@, new.part, new.num_parts) {
                Err(v) => r == Err::<(), RepoError>(RepoError::Invalid(v)),
                Ok(_) => match key_of_text(new.number@) {
                    None => r == Err::<(), RepoError>(RepoError::InvalidKey),
                    Some(k) => if !(1 <= k <= old(self)@.len() + 1) {
                        r == Err::<(), RepoError>(RepoError::InvalidKey)
                    } else if holds_id(old(self)@, id) {
                        r == Err::<(), RepoError>(RepoError::DuplicateId)
                    } else {
                        r is Ok && exists|e: Engagement|
                            is_built_from(*new, id, k, creation_stamp(new.last_updated_by@, today@), e)
                            && final(self)@ == inserted(old(self)@, e, k as int)
                    },
                },
            },
    {
        match new.validate() {
            Err(v) => {
                return Err(RepoError::Invalid(v));
            },
            Ok(_) => {},
        }
        let key = match parse_key(new.number.as_str()) {
            Some(k) => k,
            None => {
                return Err(RepoError::InvalidKey);
            },
        };
        if key < 1 || key > self.records.len() + 1 {
            return Err(RepoError::InvalidKey);
        }
        if self.position_of(id).is_some() {
            return Err(RepoError::DuplicateId);
        }
        let mut stamp = new.last_updated_by.clone();
        stamp.append(" ");
        stamp.append(today);
        proof {
            reveal_strlit(" ");
            assert(stamp@ =~= creation_stamp(new.last_updated_by@, today@));
        }
        let e = new.build(id, key, stamp);
        self.insert(e, key)
    }

    /// Creates the engagement that `new` describes under a fresh random
    /// identity, stamped with today's date; returns that identity.
    pub fn add(&mut self, new: &NewEngagement) -> (r: Result<u128, RepoError>)
        requires
            old(self).wf(),
            old(self)@.len() + 1 < usize::MAX,
        ensures
            final(self).wf(),
            r is Err ==> final(self)@ == old(self)@,
            field_check(new.date@, new.part, new.num_parts) matches Err(v)
                ==> r == Err::<u128, RepoError>(RepoError::Invalid(v)),
            field_check(new.date@, new.part, new.num_parts) is Ok && key_of_text(new.number@) is None
                ==> r == Err::<u128, RepoError>(RepoError::InvalidKey),
            field_check(new.date@, new.part, new.num_parts) is Ok ==> (key_of_text(new.number@) matches Some(k)
                ==> (!(1 <= k <= old(self)@.len() + 1) <==> r == Err::<u128, RepoError>(RepoError::InvalidKey))),
            field_check(new.date@, new.part, new.num_parts) is Ok ==> (key_of_text(new.number@) matches Some(k)
                ==> (1 <= k <= old(self)@.len() + 1 ==> (r is Ok || r == Err::<u128, RepoError>(RepoError::DuplicateId)))),
            field_check(new.date@, new.part, new.num_parts) is Ok && key_of_text(new.number@) == Some(1usize)
                && old(self)@.len() == 0 ==> r is Ok,
            r matches Ok(id) ==> !holds_id(old(self)@, id) && exists|e: Engagement, k: usize, today: Seq<char>|
                is_built_from(*new, id, k, creation_stamp(new.last_updated_by@, today), e)
                && key_of_text(new.number@) == Some(k)
                && final(self)@ == inserted(old(self)@, e, k as int),
    {
        let id = random_identity();
        let today = today_text(DATE_FORMAT);
        let r = self.add_with(new, id, today.as_str());
        match r {
            Ok(()) => {
                proof {
                    let k = key_of_text(new.number@).unwrap();
                    let e = choose|e: Engagement|
                        is_built_from(*new, id, k, creation_stamp(new.last_updated_by@, today@), e)
                        && final(self)@ == inserted(old(self)@, e, k as int);
                    assert(is_built_from(*new, id, k, creation_stamp(new.last_updated_by@, today@), e));
                }
                Ok(id)
            },
            Err(e) => Err(e),
        }
    }

    /// Edits a held engagement: `rec` is validated and sanitised, stamped
    /// with its editor and `today`, and replaces the payload of the record
    /// with its identity, which keeps its key.
    pub fn edit_with(&mut self, rec: &Engagement, today: &str) -> (r: Result<(), RepoError>)
        requires
            old(self).wf(),
        ensures
            final(self).wf(),
            r is Err ==> final(self)@ == old(self)@,
            match field_check(rec.date@, rec.part, rec.num_parts) {
                Err(v) => r == Err::<(), RepoError>(RepoError::Invalid(v)),
                Ok(_) => if !holds_id(old(self)@, rec.id) {
                    r == Err::<(), RepoError>(RepoError::NotFound)
                } else {
                    r is Ok && forall|p: int| 0 <= p < old(self)@.len() && (#[trigger] old(self)@[p]).id == rec.id
                        ==> {
                            let e = final(self)@[p];
                            &&& final(self)@ == old(self)@.update(p, e)
                            &&& e.number == p + 1
                            &&& is_cleaned(*rec, Engagement { number: rec.number, last_updated_by: rec.last_updated_by, ..e })
                            &&& e.last_updated_by is Some
                            &&& e.last_updated_by.unwrap()@ == edit_stamp(rec.last_updated_by, today@)
                        }
                },
            },
    {
        match rec.validate() {
            Err(v) => {
                return Err(RepoError::Invalid(v));
            },
            Ok(_) => {},
        }
        let mut target = rec.clean();
        let mut stamp = match copy_opt_text(&rec.last_updated_by) {
            Some(w) => w,
            None => String::new(),
        };
        stamp.append(" ");
        stamp.append(today);
        proof {
            reveal_strlit(" ");
            assert(stamp@ =~= edit_stamp(rec.last_updated_by, today@));
        }
        target.last_updated_by = Some(stamp);
        let ghost t = target;
        let r = self.update(target);
        proof {
            if r is Ok {
                assert forall|p: int| 0 <= p < old(self)@.len() && (#[trigger] old(self)@[p]).id == rec.id
                    implies final(self)@[p] == with_key(t, p + 1) by {
                    assert(final(self)@ == old(self)@.update(p, with_key(t, p + 1)));
                }
            }
        }
        r
    }

    /// Edits a held engagement as `edit_with` does, stamped with today's date.
    pub fn edit(&mut self, rec: &Engagement) -> (r: Result<(), RepoError>)
        requires
            old(self).wf(),
        ensures
            final(self).wf(),
            r is Err ==> final(self)@ == old(self)@,
            field_check(rec.date@, rec.part, rec.num_parts) matches Err(v)
                ==> r == Err::<(), RepoError>(RepoError::Invalid(v)),
            field_check(rec.date@, rec.part, rec.num_parts) is Ok
                ==> (r is Ok <==> holds_id(old(self)@, rec.id)),
            field_check(rec.date@, rec.part, rec.num_parts) is Ok && !holds_id(old(self)@, rec.id)
                ==> r == Err::<(), RepoError>(RepoError::NotFound),
            r is Ok ==> forall|p: int| 0 <= p < old(self)@.len() && (#[trigger] old(self)@[p]).id == rec.id
                ==> final(self)@ == old(self)@.update(p, final(self)@[p]) && final(self)@[p].number == p + 1
                    && is_cleaned(*rec, Engagement {
                        number: rec.number,
                        last_updated_by: rec.last_updated_by,
                        ..final(self)@[p]
                    }) && final(self)@[p].last_updated_by is Some && exists|today: Seq<char>|
                        final(self)@[p].last_updated_by.unwrap()@ == #[trigger] edit_stamp(rec.last_updated_by, today),
    {
        let today = today_text(DATE_FORMAT);
        let r = self.edit_with(rec, today.as_str());
        proof {
            if r is Ok {
                assert forall|p: int| 0 <= p < old(self)@.len() && (#[trigger] old(self)@[p]).id == rec.id
                    implies exists|d: Seq<char>|
                        final(self)@[p].last_updated_by.unwrap()@ == #[trigger] edit_stamp(rec.last_updated_by, d) by {
                    assert(final(self)@[p].last_updated_by.unwrap()@ == edit_stamp(rec.last_updated_by, today@));
                }
            }
        }
        r
    }
}


/// Whether the records of `v` hold each key of `1..=N` once, with distinct
/// identities.
pub fn is_keyed_exactly(v: &Vec<Engagement>) -> (b: bool)
    ensures
        b == keyed_exactly(v@),
{
    let n = v.len();
    if n == usize::MAX {
        return false;
    }
    let mut i: usize = 0;
    while i < n
        invariant
            n == v@.len() < usize::MAX,
            i <= n,
            forall|j: int| 0 <= j < i ==> 1 <= (#[trigger] v@[j]).number <= n,
            forall|a: int, b: int| 0 <= a < i && 0 <= b < n && a != b
                ==> v@[a].number != v@[b].number && v@[a].id != v@[b].id,
        decreases n - i,
    {
        if v[i].number < 1 || v[i].number > n {
            return false;
        }
        let mut j: usize = 0;
        while j < n
            invariant
                n == v@.len(),
                i < n,
                j <= n,
                forall|b: int| 0 <= b < j && b != i
                    ==> v@[i as int].number != (#[trigger] v@[b]).number && v@[i as int].id != v@[b].id,
            decreases n - j,
        {
            if j != i && (v[j].number == v[i].number || v[j].id == v[i].id) {
                return false;
            }
            j = j + 1;
        }
        i = i + 1;
    }
    true
}

/// Slot `a` of `slots` holds the record of `v` keyed `a + 1`.
pub open spec fn slot_filled(v: Seq<Engagement>, slots: Seq<Option<Engagement>>, a: int) -> bool {
    exists|j: int| 0 <= j < v.len() && v[j].number == a + 1 && #[trigger] slots[a] == Some(v[j])
}

/// The records of `v` listed by key: the record keyed `k` at position `k - 1`.
fn place_by_key(v: &Vec<Engagement>) -> (r: Vec<Engagement>)
    requires
        keyed_exactly(v@),
    ensures
        well_sequenced(r@),
        r@.len() == v@.len(),
        forall|i: int| 0 <= i < v@.len() ==> r@[(#[trigger] v@[i]).number - 1] == v@[i],
{
    let n = v.len();
    let mut slots: Vec<Option<Engagement>> = Vec::new();
    let mut k: usize = 0;
    while k < n
        invariant
            slots@.len() == k,
            k <= n,
        decreases n - k,
    {
        slots.push(None);
        k = k + 1;
    }
    let mut i: usize = 0;
    while i < n
        invariant
            n == v@.len(),
            slots@.len() == n,
            keyed_exactly(v@),
            i <= n,
            forall|j: int| 0 <= j < i ==> slots@[(#[trigger] v@[j]).number - 1] == Some(v@[j]),
        decreases n - i,
    {
        let e = v[i].copied();
        let slot = e.number - 1;
        slots.set(slot, Some(e));
        proof {
            assert forall|j: int| 0 <= j < i + 1 implies slots@[(#[trigger] v@[j]).number - 1] == Some(v@[j]) by {
                if j < i {
                    assert(v@[j].number != v@[i as int].number);
                }
            }
        }
        i = i + 1;
    }
    proof {
        lemma_keys_cover(v@);
        assert forall|a: int| 0 <= a < n implies slot_filled(v@, slots@, a) by {
            assert(keys_of(v@).contains(a + 1));
            let j = choose|j: int| 0 <= j < v@.len() && (#[trigger] v@[j]).number == a + 1;
            assert(slots@[v@[j].number - 1] == Some(v@[j]));
        }
    }
    let mut out: Vec<Engagement> = Vec::new();
    let mut k: usize = 0;
    while k < n
        invariant
            n == v@.len(),
            slots@.len() == n,
            k <= n,
            out@.len() == k,
            forall|a: int| 0 <= a < n ==> slot_filled(v@, slots@, a),
            forall|a: int| 0 <= a < k ==> Some(#[trigger] out@[a]) == slots@[a],
        decreases n - k,
    {
        assert(slot_filled(v@, slots@, k as int));
        match &slots[k] {
            Some(e) => {
                out.push(e.copied());
            },
            None => {},
        }
        k = k + 1;
    }
    proof {
        assert forall|a: int| 0 <= a < n implies (#[trigger] out@[a]).number == a + 1 by {
            assert(slot_filled(v@, slots@, a));
        }
        assert forall|a: int, b: int| 0 <= a < n && 0 <= b < n && a != b implies out@[a].id != out@[b].id by {
            assert(slot_filled(v@, slots@, a));
            assert(slot_filled(v@, slots@, b));
            let ja = choose|j: int| 0 <= j < v@.len() && v@[j].number == a + 1 && #[trigger] slots@[a] == Some(v@[j]);
            let jb = choose|j: int| 0 <= j < v@.len() && v@[j].number == b + 1 && #[trigger] slots@[b] == Some(v@[j]);
            assert(ja != jb);
        }
        assert forall|i: int| 0 <= i < v@.len() implies out@[(#[trigger] v@[i]).number - 1] == v@[i] by {
            assert(Some(out@[v@[i].number - 1]) == slots@[v@[i].number - 1]);
        }
    }
    out
}

} // verus!
