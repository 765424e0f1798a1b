//! Translation tasks: identified by small integers assigned in creation
//! order, never reused, held in creation order; copies sort by due date.
use vstd::prelude::*;
use crate::error::RepoError;
use crate::names::texts;
use crate::outside::{clean_html, date_parses, has_substring, parses_as_date, sanitized, text_contains};
use crate::record::{ValidationError, DATE_FORMAT};
use crate::text::{compare_text, lemma_text_lt_irreflexive, lemma_text_lt_transitive, text_lt};

verus! {

/// The stage a translation task has reached; `Any` in a query matches every
/// stage.
#[derive(Clone, Copy, Debug, PartialEq, Eq, Structural)]
pub enum Stage {
    Any,
    AITranscription,
    AudioProofreading,
    GeneralTranslation,
    GeneralProofreading,
    Adaptation,
    VoiceSearch,
    Recording,
    EnglishEditing,
    FinalEditing,
}

/// The label shown for each stage.
pub open spec fn stage_label(stage: Stage) -> Seq<char> {
    match stage {
        Stage::AITranscription => "Stage 1: AI Transcription (Spanish)"@,
        Stage::AudioProofreading => "Stage 2: Audio Proofreading (Final Transcription in Spanish)"@,
        Stage::GeneralTranslation => "Stage 3: General Translation (Only the parts that are well understood - Bilingual Person)"@,
        Stage::GeneralProofreading => "Stage 4: General Proofreading (Proofreading by native speaker)"@,
        Stage::Adaptation => "Stage 5: Adaptation (Special phrases and literal idioms - Bilingual and Native Group)"@,
        Stage::VoiceSearch => "Stage 6: Voice Search (Project Coordinator)"@,
        Stage::Recording => "Stage 7: Recording (Native Persons)"@,
        Stage::EnglishEditing => "Stage 8: English Editing (Separate file assembly - Host and Interviewee)"@,
        Stage::FinalEditing => "Stage 9: Final Editing (Bilingual Editor)"@,
        Stage::Any => "All Stages"@,
    }
}

/// The label shown for a stage.
pub fn get_stage(stage: Stage) -> (r: &'static str)
    ensures
        r@ == stage_label(stage),
{
    match stage {
        Stage::AITranscription => "Stage 1: AI Transcription (Spanish)",
        Stage::AudioProofreading => "Stage 2: Audio Proofreading (Final Transcription in Spanish)",
        Stage::GeneralTranslation => "Stage 3: General Translation (Only the parts that are well understood - Bilingual Person)",
        Stage::GeneralProofreading => "Stage 4: General Proofreading (Proofreading by native speaker)",
        Stage::Adaptation => "Stage 5: Adaptation (Special phrases and literal idioms - Bilingual and Native Group)",
        Stage::VoiceSearch => "Stage 6: Voice Search (Project Coordinator)",
        Stage::Recording => "Stage 7: Recording (Native Persons)",
        Stage::EnglishEditing => "Stage 8: English Editing (Separate file assembly - Host and Interviewee)",
        Stage::FinalEditing => "Stage 9: Final Editing (Bilingual Editor)",
        Stage::Any => "All Stages",
    }
}

/// A translation task.
#[derive(Debug)]
pub struct Translation {
    pub id: u32,
    pub name: String,
    pub stage: Stage,
    pub translators: Vec<String>,
    pub due_date: String,
    pub file_url: String,
    pub last_update_by: String,
}

/// What a translation task holds, as plain values.
pub struct TaskView {
    pub id: u32,
    pub name: Seq<char>,
    pub stage: Stage,
    pub translators: Seq<Seq<char>>,
    pub due_date: Seq<char>,
    pub file_url: Seq<char>,
    pub last_update_by: Seq<char>,
}

impl View for Translation {
    type V = TaskView;

    open spec fn view(&self) -> TaskView {
        TaskView {
            id: self.id,
            name: self.name@,
            stage: self.stage,
            translators: texts(self.translators@),
            due_date: self.due_date@,
            file_url: self.file_url@,
            last_update_by: self.last_update_by@,
        }
    }
}

/// Filter for translation queries; every field that is `Some` must match.
#[derive(Debug)]
pub struct Query {
    pub id: Option<u32>,
    pub name: Option<String>,
    pub stage: Option<Stage>,
    pub translators: Option<Vec<String>>,
}

/// A copy of a list of strings.
pub fn copy_texts(v: &Vec<String>) -> (r: Vec<String>)
    ensures
        r@ == v@,
{
    let mut out: Vec<String> = Vec::new();
    let mut i: usize = 0;
    while i < v.len()
        invariant
            i <= v@.len(),
            out@ == v@.subrange(0, i as int),
        decreases v@.len() - i,
    {
        out.push(v[i].clone());
        i = i + 1;
        assert(out@ =~= v@.subrange(0, i as int));
    }
    assert(v@.subrange(0, v@.len() as int) =~= v@);
    out
}

/// Task `t` with its name, due date and editor sanitised.
pub open spec fn cleaned_task(t: TaskView) -> TaskView {
    TaskView {
        name: sanitized(t.name),
        due_date: sanitized(t.due_date),
        last_update_by: sanitized(t.last_update_by),
        ..t
    }
}

/// Task `t` as created under identity `id`: sanitised, with that identity.
pub open spec fn created_task(t: TaskView, id: u32) -> TaskView {
    TaskView { id, ..cleaned_task(t) }
}

/// Whether task `t` passes every filter of `q`.
pub open spec fn task_matches(q: Query, t: TaskView) -> bool {
    &&& match q.id {
        Some(i) => t.id == i,
        None => true,
    }
    &&& match q.name {
        Some(n) => has_substring(t.name, n@),
        None => true,
    }
    &&& match q.stage {
        Some(s) => s == Stage::Any || t.stage == s,
        None => true,
    }
    &&& match q.translators {
        Some(ts) => exists|i: int| 0 <= i < ts@.len() && t.translators.contains(#[trigger] ts@[i]@),
        None => true,
    }
}

/// Whether some string of `v` has the text `s`.
fn holds_text(v: &Vec<String>, s: &String) -> (b: bool)
    ensures
        b == texts(v@).contains(s@),
{
    let mut i: usize = 0;
    while i < v.len()
        invariant
            i <= v@.len(),
            forall|j: int| 0 <= j < i ==> v@[j]@ != s@,
        decreases v@.len() - i,
    {
        if v[i] == *s {
            assert(texts(v@)[i as int] == s@);
            return true;
        }
        i = i + 1;
    }
    proof {
        if texts(v@).contains(s@) {
            let k = choose|k: int| 0 <= k < texts(v@).len() && texts(v@)[k] == s@;
            assert(v@[k]@ == s@);
        }
    }
    false
}

/// Whether some string of `wanted` has the text of some string of `held`.
fn any_held(held: &Vec<String>, wanted: &Vec<String>) -> (b: bool)
    ensures
        b == exists|i: int| 0 <= i < wanted@.len() && texts(held@).contains(#[trigger] wanted@[i]@),
{
    let mut i: usize = 0;
    while i < wanted.len()
        invariant
            i <= wanted@.len(),
            forall|j: int| 0 <= j < i ==> !texts(held@).contains(#[trigger] wanted@[j]@),
        decreases wanted@.len() - i,
    {
        if holds_text(held, &wanted[i]) {
            return true;
        }
        i = i + 1;
    }
    false
}

impl Translation {
    /// Checks that the due date reads as `YYYY-MM-DD`.
    pub fn validate(&self) -> (r: Result<(), ValidationError>)
        ensures
            r is Ok <==> date_parses(self.due_date@, DATE_FORMAT@),
            r is Err ==> r == Err::<(), ValidationError>(ValidationError::BadDate),
    {
        if parses_as_date(self.due_date.as_str(), DATE_FORMAT) {
            Ok(())
        } else {
            Err(ValidationError::BadDate)
        }
    }

    /// The task with its name, due date and editor sanitised.
    pub fn clean(&self) -> (r: Translation)
        ensures
            r@ == cleaned_task(self@),
    {
        Translation {
            id: self.id,
            name: clean_html(self.name.as_str()),
            stage: self.stage,
            translators: copy_texts(&self.translators),
            due_date: clean_html(self.due_date.as_str()),
            file_url: self.file_url.clone(),
            last_update_by: clean_html(self.last_update_by.as_str()),
        }
    }

    /// A field-for-field copy of the task.
    pub fn copied(&self) -> (r: Translation)
        ensures
            r@ == self@,
    {
        let r = Translation {
            id: self.id,
            name: self.name.clone(),
            stage: self.stage,
            translators: copy_texts(&self.translators),
            due_date: self.due_date.clone(),
            file_url: self.file_url.clone(),
            last_update_by: self.last_update_by.clone(),
        };
        r
    }
}

impl Query {
    /// Whether task `t` passes every filter of the query.
    pub fn matches(&self, t: &Translation) -> (r: bool)
        ensures
            r == task_matches(*self, t@),
    {
        let id_ok = match self.id {
            Some(i) => t.id == i,
            None => true,
        };
        if !id_ok {
            return false;
        }
        let name_ok = match &self.name {
            Some(n) => text_contains(t.name.as_str(), n.as_str()),
            None => true,
        };
        if !name_ok {
            return false;
        }
        let stage_ok = match self.stage {
            Some(s) => s == Stage::Any || t.stage == s,
            None => true,
        };
        if !stage_ok {
            return false;
        }
        match &self.translators {
            Some(ts) => any_held(&t.translators, ts),
            None => true,
        }
    }
}

/// Due dates never decrease along `s`.
pub open spec fn due_sorted(s: Seq<TaskView>) -> bool {
    forall|i: int, j: int| 0 <= i < j < s.len() ==> !text_lt(#[trigger] s[j].due_date, #[trigger] s[i].due_date)
}

/// The first position of `s` whose task is due after `d` (the length of `s`
/// when there is none).
pub open spec fn first_due_after(s: Seq<TaskView>, d: Seq<char>) -> int
    decreases s.len(),
{
    if s.len() == 0 {
        0
    } else if text_lt(d, s[0].due_date) {
        0
    } else {
        1 + first_due_after(s.drop_first(), d)
    }
}

/// `s` ordered by due date, tasks due together kept in the order of `s`:
/// each task in turn goes after every task already placed that is due no
/// later than it.
pub open spec fn sorted_by_due(s: Seq<TaskView>) -> Seq<TaskView>
    decreases s.len(),
{
    if s.len() == 0 {
        s
    } else {
        let r = sorted_by_due(s.drop_last());
        r.insert(first_due_after(r, s.last().due_date), s.last())
    }
}

/// A position with no task due after `d` before it, and a task due after
/// `d` at it (or the end), is the first position due after `d`.
proof fn lemma_first_due_after(s: Seq<TaskView>, d: Seq<char>, q: int)
    requires
        0 <= q <= s.len(),
        forall|i: int| 0 <= i < q ==> !text_lt(d, #[trigger] s[i].due_date),
        q < s.len() ==> text_lt(d, s[q].due_date),
    ensures
        first_due_after(s, d) == q,
    decreases s.len(),
{
    if s.len() > 0 && q > 0 {
        let t = s.drop_first();
        assert forall|i: int| 0 <= i < q - 1 implies !text_lt(d, #[trigger] t[i].due_date) by {
            assert(t[i] == s[i + 1]);
        }
        lemma_first_due_after(t, d, q - 1);
    }
}

/// The first position due after `d` lies within `0..=len`.
proof fn lemma_first_due_after_bounds(s: Seq<TaskView>, d: Seq<char>)
    ensures
        0 <= first_due_after(s, d) <= s.len(),
    decreases s.len(),
{
    if s.len() > 0 {
        lemma_first_due_after_bounds(s.drop_first(), d);
    }
}

/// Sorting by due date keeps the tasks: it only reorders them.
pub proof fn lemma_sorted_by_due_permutes(s: Seq<TaskView>)
    ensures
        sorted_by_due(s).to_multiset() == s.to_multiset(),
    decreases s.len(),
{
    broadcast use vstd::seq_lib::group_to_multiset_ensures;

    if s.len() > 0 {
        let d = s.drop_last();
        lemma_sorted_by_due_permutes(d);
        let r = sorted_by_due(d);
        lemma_first_due_after_bounds(r, s.last().due_date);
        assert(s =~= d.push(s.last()));
    }
}

/// Stores `t` in `items` at the first position due after it.
fn insert_by_due(items: &mut Vec<Translation>, t: Translation)
    requires
        due_sorted(task_views(old(items)@)),
    ensures
        due_sorted(task_views(final(items)@)),
        task_views(final(items)@) == task_views(old(items)@).insert(
            first_due_after(task_views(old(items)@), t@.due_date),
            t@,
        ),
{
    let ghost s = task_views(items@);
    let ghost x = t@;
    let mut p: usize = 0;
    let mut stop = false;
    while p < items.len() && !stop
        invariant
            s == task_views(items@),
            x == t@,
            p <= s.len(),
            forall|j: int| 0 <= j < p ==> !text_lt(x.due_date, #[trigger] s[j].due_date),
            stop ==> p < s.len() && text_lt(x.due_date, s[p as int].due_date),
        decreases s.len() - p + if stop { 0int } else { 1int },
    {
        assert(s[p as int] == items@[p as int]@);
        if compare_text(t.due_date.as_str(), items[p].due_date.as_str()) < 0 {
            stop = true;
        } else {
            p = p + 1;
        }
    }
    proof {
        lemma_first_due_after(s, x.due_date, p as int);
    }
    items.insert(p, t);
    assert(task_views(items@) =~= s.insert(p as int, x));
    let ghost n = task_views(items@);
    assert forall|i: int, j: int| 0 <= i < j < n.len() implies !text_lt(
        #[trigger] n[j].due_date,
        #[trigger] n[i].due_date,
    ) by {
        if j == p {
        } else if i == p {
            if text_lt(s[j - 1].due_date, x.due_date) {
                lemma_text_lt_transitive(s[j - 1].due_date, x.due_date, s[p as int].due_date);
                lemma_text_lt_irreflexive(s[p as int].due_date);
            }
        } else if i < p && j > p {
            assert(!text_lt(s[j - 1].due_date, s[i].due_date));
        } else if i > p {
            assert(!text_lt(s[j - 1].due_date, s[i - 1].due_date));
        }
    }
}

/// The tasks of `v` ordered by due date, tasks due together kept in the
/// order of `v`.
pub fn sort_by_due(v: &Vec<Translation>) -> (r: Vec<Translation>)
    ensures
        task_views(r@) == sorted_by_due(task_views(v@)),
        due_sorted(task_views(r@)),
        task_views(r@).to_multiset() == task_views(v@).to_multiset(),
{
    let ghost tv = task_views(v@);
    let mut out: Vec<Translation> = Vec::new();
    assert(task_views(out@) =~= sorted_by_due(tv.subrange(0, 0)));
    let mut i: usize = 0;
    while i < v.len()
        invariant
            tv == task_views(v@),
            i <= v@.len(),
            task_views(out@) == sorted_by_due(tv.subrange(0, i as int)),
            due_sorted(task_views(out@)),
        decreases v@.len() - i,
    {
        let e = v[i].copied();
        assert(e@ == tv[i as int]);
        insert_by_due(&mut out, e);
        proof {
            let sub = tv.subrange(0, i + 1);
            assert(sub.drop_last() =~= tv.subrange(0, i as int));
            assert(sub.last() == tv[i as int]);
        }
        i = i + 1;
    }
    assert(tv.subrange(0, v@.len() as int) =~= tv);
    proof {
        lemma_sorted_by_due_permutes(tv);
    }
    out
}

/// Every identity of `s` lies in `1..next`, and none occurs twice.
pub open spec fn ids_fresh_below(s: Seq<TaskView>, next: u32) -> bool {
    &&& forall|i: int| 0 <= i < s.len() ==> 1 <= (#[trigger] s[i]).id < next
    &&& forall|i: int, j: int| 0 <= i < s.len() && 0 <= j < s.len() && i != j ==> s[i].id != s[j].id
}

/// The views of a list of tasks.
pub open spec fn task_views(v: Seq<Translation>) -> Seq<TaskView> {
    v.map_values(|t: Translation| t@)
}

/// Whether some task of `s` has identity `id`.
pub open spec fn holds_task(s: Seq<TaskView>, id: u32) -> bool {
    exists|i: int| 0 <= i < s.len() && (#[trigger] s[i]).id == id
}

/// Translation tasks, held in the order they were created.
pub struct TranslationRepo {
    items: Vec<Translation>,
    next_id: u32,
}

impl View for TranslationRepo {
    type V = Seq<TaskView>;

    closed spec fn view(&self) -> Seq<TaskView> {
        task_views(self.items@)
    }
}

impl TranslationRepo {
    /// The identity the next created task receives.
    pub closed spec fn next_id(&self) -> u32 {
        self.next_id
    }

    /// The repository's invariant: identities distinct and below the next.
    pub open spec fn wf(&self) -> bool {
        &&& ids_fresh_below(self@, self.next_id())
        &&& self.next_id() >= 1
    }

    /// An empty repository whose first task will get identity 1.
    pub fn new() -> (r: TranslationRepo)
        ensures
            r.wf(),
            r@ == Seq::<TaskView>::empty(),
            r.next_id() == 1,
    {
        let r = TranslationRepo { items: Vec::new(), next_id: 1 };
        assert(r@ =~= Seq::<TaskView>::empty());
        r
    }

    /// The number of tasks held.
    pub fn len(&self) -> (n: usize)
        ensures
            n == self@.len(),
    {
        self.items.len()
    }

    /// Whether no task is held.
    pub fn is_empty(&self) -> (b: bool)
        ensures
            b == (self@.len() == 0),
    {
        self.items.len() == 0
    }

    /// The position of the task with identity `id`, if one is held.
    fn position_of(&self, id: u32) -> (r: Option<usize>)
        ensures
            match r {
                Some(p) => p < self@.len() && self@[p as int].id == id,
                None => !holds_task(self@, id),
            },
    {
        let mut i: usize = 0;
        while i < self.items.len()
            invariant
                i <= self@.len(),
                self@.len() == self.items@.len(),
                forall|j: int| 0 <= j < i ==> (#[trigger] self@[j]).id != id,
            decreases self@.len() - i,
        {
            assert(self@[i as int] == self.items@[i as int]@);
            if self.items[i].id == id {
                return Some(i);
            }
            i = i + 1;
        }
        None
    }

    /// Creates task `t`, validated and sanitised, under the next identity,
    /// which it returns; the task goes after every task held.
    pub fn create(&mut self, t: &Translation) -> (r: Result<u32, RepoError>)
        requires
            old(self).wf(),
        ensures
            final(self).wf(),
            r is Err ==> final(self)@ == old(self)@ && final(self).next_id() == old(self).next_id(),
            !date_parses(t.due_date@, DATE_FORMAT@)
                ==> r == Err::<u32, RepoError>(RepoError::Invalid(ValidationError::BadDate)),
            date_parses(t.due_date@, DATE_FORMAT@) && old(self).next_id() == u32::MAX
                ==> r == Err::<u32, RepoError>(RepoError::Exhausted),
            date_parses(t.due_date@, DATE_FORMAT@) && old(self).next_id() < u32::MAX ==> r == Ok::<u32, RepoError>(
                old(self).next_id(),
            ),
            r matches Ok(id) ==> final(self).next_id() == id + 1
                && final(self)@ == old(self)@.push(created_task(t@, id)),
    {
        if t.validate().is_err() {
            return Err(RepoError::Invalid(ValidationError::BadDate));
        }
        if self.next_id == u32::MAX {
            return Err(RepoError::Exhausted);
        }
        let id = self.next_id;
        let mut c = t.clean();
        c.id = id;
        let ghost s = self@;
        self.items.push(c);
        self.next_id = id + 1;
        assert(self@ =~= s.push(c@));
        proof {
            assert forall|i: int| 0 <= i < self@.len() implies 1 <= (#[trigger] self@[i]).id < self.next_id by {
                if i < s.len() {
                    assert(self@[i] == s[i]);
                }
            }
            assert forall|i: int, j: int| 0 <= i < self@.len() && 0 <= j < self@.len() && i != j
                implies self@[i].id != self@[j].id by {
                if i < s.len() && j < s.len() {
                    assert(self@[i] == s[i] && self@[j] == s[j]);
                } else if i < s.len() {
                    assert(self@[i] == s[i]);
                } else {
                    assert(self@[j] == s[j]);
                }
            }
        }
        Ok(id)
    }

    /// Replaces the task with `t`'s identity, in its place, by `t`
    /// validated and sanitised.
    pub fn update(&mut self, t: &Translation) -> (r: Result<(), RepoError>)
        requires
            old(self).wf(),
        ensures
            final(self).wf(),
            final(self).next_id() == old(self).next_id(),
            r is Err ==> final(self)@ == old(self)@,
            !date_parses(t.due_date@, DATE_FORMAT@)
                ==> r == Err::<(), RepoError>(RepoError::Invalid(ValidationError::BadDate)),
            date_parses(t.due_date@, DATE_FORMAT@) ==> (r is Ok <==> holds_task(old(self)@, t.id)),
            date_parses(t.due_date@, DATE_FORMAT@) && !holds_task(old(self)@, t.id)
                ==> r == Err::<(), RepoError>(RepoError::NotFound),
            r is Ok ==> forall|p: int| 0 <= p < old(self)@.len() && (#[trigger] old(self)@[p]).id == t.id
                ==> final(self)@ == old(self)@.update(p, cleaned_task(t@)),
    {
        if t.validate().is_err() {
            return Err(RepoError::Invalid(ValidationError::BadDate));
        }
        let p = match self.position_of(t.id) {
            Some(p) => p,
            None => {
                return Err(RepoError::NotFound);
            },
        };
        let c = t.clean();
        let ghost s = self@;
        self.items.set(p, c);
        assert(self@ =~= s.update(p as int, c@));
        proof {
            assert forall|k: int| 0 <= k < s.len() && (#[trigger] s[k]).id == t.id implies k == p by {
                if k != p {
                    assert(s[k].id != s[p as int].id);
                }
            }
            assert forall|i: int, j: int| 0 <= i < self@.len() && 0 <= j < self@.len() && i != j
                implies self@[i].id != self@[j].id by {
                assert(self@[i].id == s[i].id);
                assert(self@[j].id == s[j].id);
            }
            assert forall|i: int| 0 <= i < self@.len() implies 1 <= (#[trigger] self@[i]).id < self.next_id by {
                assert(self@[i].id == s[i].id);
            }
        }
        Ok(())
    }

    /// Removes the task with identity `id`, or fails with `NotFound`.
    pub fn delete(&mut self, id: u32) -> (r: Result<(), RepoError>)
        requires
            old(self).wf(),
        ensures
            final(self).wf(),
            final(self).next_id() == old(self).next_id(),
            r is Ok <==> holds_task(old(self)@, id),
            r is Err ==> r == Err::<(), RepoError>(RepoError::NotFound) && final(self)@ == old(self)@,
            forall|p: int| 0 <= p < old(self)@.len() && (#[trigger] old(self)@[p]).id == id
                ==> final(self)@ == old(self)@.remove(p) && r is Ok,
    {
        let p = match self.position_of(id) {
            Some(p) => p,
            None => {
                return Err(RepoError::NotFound);
            },
        };
        let ghost s = self@;
        self.items.remove(p);
        assert(self@ =~= s.remove(p as int));
        proof {
            assert forall|i: int| 0 <= i < self@.len() implies 1 <= (#[trigger] self@[i]).id < self.next_id by {
                let si = if i < p { i } else { i + 1 };
                assert(self@[i] == s[si]);
            }
            assert forall|i: int, j: int| 0 <= i < self@.len() && 0 <= j < self@.len() && i != j
                implies self@[i].id != self@[j].id by {
                let si = if i < p { i } else { i + 1 };
                let sj = if j < p { j } else { j + 1 };
                assert(self@[i] == s[si] && self@[j] == s[sj]);
            }
            assert forall|k: int| 0 <= k < s.len() && (#[trigger] s[k]).id == id implies k == p by {
                if k != p {
                    assert(s[k].id != s[p as int].id);
                }
            }
        }
        Ok(())
    }

    /// The tasks that pass `q`, in the order they are held; `sort_by_due`
    /// orders such a copy by due date.
    pub fn query(&self, q: &Query) -> (r: Vec<Translation>)
        ensures
            task_views(r@) == self@.filter(|t: TaskView| task_matches(*q, t)),
    {
        let ghost f = |t: TaskView| task_matches(*q, t);
        let mut out: Vec<Translation> = Vec::new();
        let mut i: usize = 0;
        while i < self.items.len()
            invariant
                f == (|t: TaskView| task_matches(*q, t)),
                i <= self@.len(),
                self@.len() == self.items@.len(),
                task_views(out@) == self@.subrange(0, i as int).filter(f),
            decreases self@.len() - i,
        {
            let ghost sub = self@.subrange(0, i + 1);
            proof {
                assert(sub.drop_last() =~= self@.subrange(0, i as int));
                assert(sub.last() == self@[i as int]);
                reveal(Seq::filter);
            }
            let ghost before = out@;
            assert(self@[i as int] == self.items@[i as int]@);
            if q.matches(&self.items[i]) {
                out.push(self.items[i].copied());
                assert(task_views(out@) =~= task_views(before).push(sub.last()));
            }
            i = i + 1;
        }
        assert(self@.subrange(0, self@.len() as int) =~= self@);
        out
    }

    /// A copy of every task, in the order they are held.
    pub fn tasks(&self) -> (r: Vec<Translation>)
        ensures
            task_views(r@) == self@,
    {
        let mut out: Vec<Translation> = Vec::new();
        let mut i: usize = 0;
        while i < self.items.len()
            invariant
                i <= self.items@.len(),
                task_views(out@) == task_views(self.items@.subrange(0, i as int)),
            decreases self.items@.len() - i,
        {
            let ghost before = out@;
            out.push(self.items[i].copied());
            assert(task_views(out@) =~= task_views(before).push(self.items@[i as int]@));
            i = i + 1;
            assert(task_views(self.items@.subrange(0, i as int)) =~= task_views(
                self.items@.subrange(0, i - 1),
            ).push(self.items@[i - 1]@));
        }
        assert(self.items@.subrange(0, self.items@.len() as int) =~= self.items@);
        out
    }

    /// Restore-if-empty: an empty repository takes `items`, in their order,
    /// as its whole contents, provided their identities are distinct and in
    /// `1..u32::MAX`; later identities follow the largest held. A repository
    /// that holds anything is left untouched.
    pub fn restore(&mut self, items: Vec<Translation>) -> (r: Result<bool, RepoError>)
        requires
            old(self).wf(),
        ensures
            final(self).wf(),
            old(self)@.len() > 0 ==> r == Ok::<bool, RepoError>(false) && final(self)@ == old(self)@,
            old(self)@.len() == 0 && ids_fresh_below(task_views(items@), u32::MAX) ==> r == Ok::<bool, RepoError>(true)
                && final(self)@ == task_views(items@),
            old(self)@.len() == 0 && !ids_fresh_below(task_views(items@), u32::MAX) ==> r == Err::<bool, RepoError>(
                RepoError::SnapshotDecodeFailed,
            ) && final(self)@ == old(self)@,
    {
        if self.items.len() > 0 {
            return Ok(false);
        }
        let top = match largest_fresh_id(&items) {
            Some(top) => top,
            None => {
                return Err(RepoError::SnapshotDecodeFailed);
            },
        };
        self.items = items;
        if top >= self.next_id {
            self.next_id = top + 1;
        }
        Ok(true)
    }
}

/// The largest identity of `items`, when their identities are distinct and
/// in `1..u32::MAX`.
fn largest_fresh_id(items: &Vec<Translation>) -> (r: Option<u32>)
    ensures
        r is Some <==> ids_fresh_below(task_views(items@), u32::MAX),
        r matches Some(top) ==> top < u32::MAX && forall|a: int|
            0 <= a < items@.len() ==> (#[trigger] task_views(items@)[a]).id <= top,
{
    let ghost tv = task_views(items@);
    let mut top: u32 = 0;
    let mut i: usize = 0;
    while i < items.len()
        invariant
            tv == task_views(items@),
            top < u32::MAX,
            i <= items@.len(),
            forall|a: int| 0 <= a < i ==> 1 <= (#[trigger] tv[a]).id < u32::MAX && tv[a].id <= top,
            forall|a: int, b: int| 0 <= a < i && 0 <= b < items@.len() && a != b ==> tv[a].id != tv[b].id,
        decreases items@.len() - i,
    {
        assert(tv[i as int] == items@[i as int]@);
        let id = items[i].id;
        if id == 0 || id == u32::MAX {
            return None;
        }
        let mut j: usize = 0;
        while j < items.len()
            invariant
                tv == task_views(items@),
                i < items@.len(),
                id == tv[i as int].id,
                j <= items@.len(),
                forall|b: int| 0 <= b < j && b != i ==> id != (#[trigger] tv[b]).id,
            decreases items@.len() - j,
        {
            assert(tv[j as int] == items@[j as int]@);
            if j != i && items[j].id == id {
                return None;
            }
            j = j + 1;
        }
        if id > top {
            top = id;
        }
        i = i + 1;
    }
    Some(top)
}

} // verus!
