//! Snapshots: the contents of every repository at one moment, and the
//! restore-if-empty policy applied at startup.
use vstd::prelude::*;
use crate::engagements::EngagementRepo;
use crate::error::RepoError;
use crate::names::{texts, NameSet};
use crate::record::Engagement;
use crate::sequence::keyed_exactly;
use crate::translations::{ids_fresh_below, task_views, Translation, TranslationRepo};

verus! {

/// The contents of all five collections, stamped with the moment (seconds
/// since the Unix epoch) they were taken.
#[derive(Debug)]
pub struct Snapshot {
    pub created: i64,
    pub engagements: Vec<Engagement>,
    pub instructors: Vec<String>,
    pub hosts: Vec<String>,
    pub translations: Vec<Translation>,
    pub translators: Vec<String>,
}

/// What a startup restore did to each collection: `Ok(true)` replaced,
/// `Ok(false)` left untouched because it held something, `Err` left empty
/// because the snapshot's part could not be used.
#[derive(Debug)]
pub struct RestoreReport {
    pub engagements: Result<bool, RepoError>,
    pub instructors: bool,
    pub hosts: bool,
    pub translations: Result<bool, RepoError>,
    pub translators: bool,
}

/// Whether every name of `names` has its text among `held`, and the reverse.
pub open spec fn same_names(held: Seq<Seq<char>>, names: Seq<String>) -> bool {
    forall|t: Seq<char>| held.contains(t) <==> texts(names).contains(t)
}

/// Restores each of the five collections from `snap` if, and only if, it
/// is empty; each is replaced whole or left untouched.
pub fn restore_all(
    engagements: &mut EngagementRepo,
    instructors: &mut NameSet,
    hosts: &mut NameSet,
    translations: &mut TranslationRepo,
    translators: &mut NameSet,
    snap: Snapshot,
) -> (r: RestoreReport)
    requires
        old(engagements).wf(),
        old(instructors).wf(),
        old(hosts).wf(),
        old(translations).wf(),
        old(translators).wf(),
    ensures
        final(engagements).wf(),
        final(instructors).wf(),
        final(hosts).wf(),
        final(translations).wf(),
        final(translators).wf(),
        old(engagements)@.len() > 0 ==> r.engagements == Ok::<bool, RepoError>(false)
            && final(engagements)@ == old(engagements)@,
        old(engagements)@.len() == 0 && keyed_exactly(snap.engagements@) ==> r.engagements == Ok::<
            bool,
            RepoError,
        >(true) && final(engagements)@.len() == snap.engagements@.len() && forall|i: int|
            0 <= i < snap.engagements@.len() ==> final(engagements)@[(#[trigger] snap.engagements@[i]).number - 1]
                == snap.engagements@[i],
        old(engagements)@.len() == 0 && !keyed_exactly(snap.engagements@) ==> r.engagements == Err::<
            bool,
            RepoError,
        >(RepoError::SnapshotDecodeFailed) && final(engagements)@ == old(engagements)@,
        r.instructors == (old(instructors)@.len() == 0),
        !r.instructors ==> final(instructors)@ == old(instructors)@,
        r.instructors ==> same_names(final(instructors)@, snap.instructors@),
        r.hosts == (old(hosts)@.len() == 0),
        !r.hosts ==> final(hosts)@ == old(hosts)@,
        r.hosts ==> same_names(final(hosts)@, snap.hosts@),
        old(translations)@.len() > 0 ==> r.translations == Ok::<bool, RepoError>(false)
            && final(translations)@ == old(translations)@,
        old(translations)@.len() == 0 && ids_fresh_below(task_views(snap.translations@), u32::MAX)
            ==> r.translations == Ok::<bool, RepoError>(true) && final(translations)@
            == task_views(snap.translations@),
        old(translations)@.len() == 0 && !ids_fresh_below(task_views(snap.translations@), u32::MAX)
            ==> r.translations == Err::<bool, RepoError>(RepoError::SnapshotDecodeFailed)
            && final(translations)@ == old(translations)@,
        r.translators == (old(translators)@.len() == 0),
        !r.translators ==> final(translators)@ == old(translators)@,
        r.translators ==> same_names(final(translators)@, snap.translators@),
{
    let Snapshot {
        created: _,
        engagements: snap_engagements,
        instructors: snap_instructors,
        hosts: snap_hosts,
        translations: snap_translations,
        translators: snap_translators,
    } = snap;
    let e = engagements.restore(snap_engagements);
    let i = instructors.restore(snap_instructors);
    let h = hosts.restore(snap_hosts);
    let t = translations.restore(snap_translations);
    let tr = translators.restore(snap_translators);
    RestoreReport { engagements: e, instructors: i, hosts: h, translations: t, translators: tr }
}

/// The position of the most recent valid artifact: `stamps[i]` is the
/// creation time of artifact `i`, or `None` when it could not be read. Of
/// equal times the first is taken.
pub fn latest_valid(stamps: &Vec<Option<i64>>) -> (r: Option<usize>)
    ensures
        r is None <==> forall|i: int| 0 <= i < stamps@.len() ==> (#[trigger] stamps@[i]) is None,
        r matches Some(p) ==> p < stamps@.len() && stamps@[p as int] is Some && forall|i: int|
            0 <= i < stamps@.len() && (#[trigger] stamps@[i]) is Some ==> stamps@[i].unwrap()
                <= stamps@[p as int].unwrap() && (i < p ==> stamps@[i].unwrap() < stamps@[p as int].unwrap()),
{
    let mut best: Option<usize> = None;
    let mut i: usize = 0;
    while i < stamps.len()
        invariant
            i <= stamps@.len(),
            best is None <==> forall|j: int| 0 <= j < i ==> (#[trigger] stamps@[j]) is None,
            best matches Some(p) ==> p < i && stamps@[p as int] is Some && forall|j: int|
                0 <= j < i && (#[trigger] stamps@[j]) is Some ==> stamps@[j].unwrap()
                    <= stamps@[p as int].unwrap() && (j < p ==> stamps@[j].unwrap() < stamps@[p as int].unwrap()),
        decreases stamps@.len() - i,
    {
        match stamps[i] {
            Some(t) => {
                match best {
                    Some(p) => {
                        let bt = match stamps[p] {
                            Some(b) => b,
                            None => t,
                        };
                        if t > bt {
                            best = Some(i);
                        }
                    },
                    None => {
                        best = Some(i);
                    },
                }
            },
            None => {},
        }
        i = i + 1;
    }
    best
}

} // verus!
