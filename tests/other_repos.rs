use engage::names::NameSet;
use engage::snapshot::{latest_valid, restore_all, Snapshot};
use engage::text::compare_text;
use engage::{
    get_stage, parse_key, sort_by_due, Engagement, EngagementRepo, Language, Query, RepoError, Stage, Status,
    Translation, TranslationRepo, ValidationError,
};

fn task(id: u32, name: &str, due: &str, who: &[&str]) -> Translation {
    Translation {
        id,
        name: name.to_string(),
        stage: Stage::AITranscription,
        translators: who.iter().map(|s| s.to_string()).collect(),
        due_date: due.to_string(),
        file_url: "https://example.org/f".to_string(),
        last_update_by: "kim".to_string(),
    }
}

fn any_query() -> Query {
    Query { id: None, name: None, stage: None, translators: None }
}

fn ids(v: &[Translation]) -> Vec<u32> {
    v.iter().map(|t| t.id).collect()
}

#[test]
fn translation_ids_are_monotonic() {
    let mut repo = TranslationRepo::new();
    assert_eq!(repo.create(&task(0, "a", "2024-03-01", &[])), Ok(1));
    assert_eq!(repo.create(&task(0, "b", "2024-02-01", &[])), Ok(2));
    assert_eq!(repo.create(&task(0, "c", "2024-01-01", &[])), Ok(3));
    assert_eq!(repo.delete(3), Ok(()));
    assert_eq!(repo.create(&task(0, "d", "2024-04-01", &[])), Ok(4));
    assert_eq!(repo.delete(3), Err(RepoError::NotFound));
    assert_eq!(ids(&repo.tasks()), vec![1, 2, 4]);
}

#[test]
fn translation_create_refuses_bad_date() {
    let mut repo = TranslationRepo::new();
    assert_eq!(
        repo.create(&task(0, "a", "03/01/2024", &[])),
        Err(RepoError::Invalid(ValidationError::BadDate))
    );
    assert!(repo.is_empty());
}

#[test]
fn translation_query_filters_and_orders_by_due_date() {
    let mut repo = TranslationRepo::new();
    repo.create(&task(0, "Interview one", "2024-05-01", &["ana", "bo"])).unwrap();
    repo.create(&task(0, "Lecture", "2024-01-15", &["cy"])).unwrap();
    repo.create(&task(0, "Interview two", "2024-03-09", &["bo"])).unwrap();
    assert_eq!(ids(&repo.query(&any_query())), vec![1, 2, 3]);
    assert_eq!(ids(&sort_by_due(&repo.query(&any_query()))), vec![2, 3, 1]);
    let mut q = any_query();
    q.name = Some("view".to_string());
    assert_eq!(ids(&repo.query(&q)), vec![1, 3]);
    assert_eq!(ids(&sort_by_due(&repo.query(&q))), vec![3, 1]);
    let mut q = any_query();
    q.translators = Some(vec!["zed".to_string(), "bo".to_string()]);
    assert_eq!(ids(&sort_by_due(&repo.query(&q))), vec![3, 1]);
    let mut q = any_query();
    q.stage = Some(Stage::Recording);
    assert!(repo.query(&q).is_empty());
    q.stage = Some(Stage::Any);
    assert_eq!(repo.query(&q).len(), 3);
    let mut q = any_query();
    q.id = Some(2);
    assert_eq!(ids(&repo.query(&q)), vec![2]);
}

#[test]
fn translation_update_in_place_and_sanitises() {
    let mut repo = TranslationRepo::new();
    repo.create(&task(0, "a", "2024-01-01", &[])).unwrap();
    repo.create(&task(0, "b", "2024-02-01", &[])).unwrap();
    let edit = task(1, "a<script>x</script>", "2024-03-01", &["lee"]);
    assert_eq!(repo.update(&edit), Ok(()));
    let all = repo.tasks();
    assert_eq!(ids(&all), vec![1, 2]);
    assert_eq!(all[0].name, "a");
    assert_eq!(all[0].due_date, "2024-03-01");
    assert_eq!(all[0].translators, vec!["lee".to_string()]);
    assert_eq!(ids(&sort_by_due(&all)), vec![2, 1]);
    assert_eq!(repo.update(&task(9, "z", "2024-03-01", &[])), Err(RepoError::NotFound));
    assert_eq!(
        repo.update(&task(1, "z", "2024-3-1x", &[])),
        Err(RepoError::Invalid(ValidationError::BadDate))
    );
}

#[test]
fn translation_restore_only_when_empty() {
    let mut repo = TranslationRepo::new();
    let artifact = vec![task(7, "x", "2024-02-02", &[]), task(3, "y", "2024-01-01", &[])];
    assert_eq!(repo.restore(artifact), Ok(true));
    assert_eq!(ids(&repo.tasks()), vec![7, 3]);
    assert_eq!(repo.create(&task(0, "z", "2024-03-03", &[])), Ok(8));
    assert_eq!(repo.restore(vec![task(1, "w", "2024-01-01", &[])]), Ok(false));
    assert_eq!(ids(&repo.tasks()), vec![7, 3, 8]);
    let mut fresh = TranslationRepo::new();
    let dup = vec![task(2, "x", "2024-02-02", &[]), task(2, "y", "2024-01-01", &[])];
    assert_eq!(fresh.restore(dup), Err(RepoError::SnapshotDecodeFailed));
    assert!(fresh.is_empty());
}

#[test]
fn name_set_keeps_one_of_each_in_order() {
    let mut set = NameSet::new();
    assert!(set.insert("mia".to_string()));
    assert!(set.insert("Zoe".to_string()));
    assert!(set.insert("abe".to_string()));
    assert!(!set.insert("mia".to_string()));
    assert_eq!(set.names(), vec!["Zoe".to_string(), "abe".to_string(), "mia".to_string()]);
    assert!(set.contains("abe"));
    assert_eq!(set.remove("abe"), Ok(()));
    assert_eq!(set.remove("abe"), Err(RepoError::NotFound));
    assert_eq!(set.len(), 2);
}

#[test]
fn name_set_sanitises() {
    let mut set = NameSet::new();
    assert!(set.add_sanitized("Lu<script>bad()</script>"));
    assert_eq!(set.names(), vec!["Lu".to_string()]);
    assert_eq!(set.remove_sanitized("Lu<script></script>"), Ok(()));
    assert!(set.is_empty());
}

#[test]
fn name_set_restore_only_when_empty() {
    let mut set = NameSet::new();
    assert!(set.restore(vec!["b".to_string(), "a".to_string(), "b".to_string()]));
    assert_eq!(set.names(), vec!["a".to_string(), "b".to_string()]);
    assert!(!set.restore(vec!["c".to_string()]));
    assert_eq!(set.names(), vec!["a".to_string(), "b".to_string()]);
}

#[test]
fn stage_labels() {
    assert_eq!(get_stage(Stage::AITranscription), "Stage 1: AI Transcription (Spanish)");
    assert_eq!(get_stage(Stage::FinalEditing), "Stage 9: Final Editing (Bilingual Editor)");
    assert_eq!(get_stage(Stage::Any), "All Stages");
}

#[test]
fn key_text_parsing() {
    assert_eq!(parse_key("12"), Some(12));
    assert_eq!(parse_key("007"), Some(7));
    assert_eq!(parse_key(""), None);
    assert_eq!(parse_key("1a"), None);
    assert_eq!(parse_key("-1"), None);
    assert_eq!(parse_key("+2"), Some(2));
    assert_eq!(parse_key("+"), None);
    assert_eq!(parse_key("++2"), None);
    assert_eq!(parse_key("18446744073709551615"), Some(usize::MAX));
    assert_eq!(parse_key("18446744073709551616"), None);
}

#[test]
fn text_order() {
    assert!(compare_text("abc", "abd") < 0);
    assert!(compare_text("ab", "abc") < 0);
    assert_eq!(compare_text("same", "same"), 0);
    assert!(compare_text("b", "a") > 0);
}

#[test]
fn latest_valid_artifact() {
    assert_eq!(latest_valid(&vec![]), None);
    assert_eq!(latest_valid(&vec![None, None]), None);
    assert_eq!(latest_valid(&vec![Some(5), None, Some(9), Some(9), Some(2)]), Some(2));
}

fn keyed(id: u128, key: usize) -> Engagement {
    Engagement {
        id,
        instructor: String::new(),
        host: String::new(),
        date: "2024-01-01".to_string(),
        language: Language::English,
        title: String::new(),
        part: 1,
        num_parts: 1,
        status: Status::Complete,
        host_status: None,
        flyer_status: None,
        notes: None,
        number: key,
        activity_type: None,
        last_updated_by: None,
    }
}

#[test]
fn restore_all_fills_only_empty_collections() {
    let mut engagements = EngagementRepo::new();
    let mut instructors = NameSet::new();
    let mut hosts = NameSet::new();
    let mut translations = TranslationRepo::new();
    let mut translators = NameSet::new();
    hosts.insert("kept".to_string());
    let snap = Snapshot {
        created: 1_700_000_000,
        engagements: vec![keyed(1, 1), keyed(2, 2)],
        instructors: vec!["ivy".to_string()],
        hosts: vec!["lost".to_string()],
        translations: vec![task(4, "t", "2024-01-01", &[])],
        translators: vec!["tom".to_string()],
    };
    let report = restore_all(
        &mut engagements,
        &mut instructors,
        &mut hosts,
        &mut translations,
        &mut translators,
        snap,
    );
    assert_eq!(report.engagements, Ok(true));
    assert!(report.instructors);
    assert!(!report.hosts);
    assert_eq!(report.translations, Ok(true));
    assert!(report.translators);
    assert_eq!(engagements.len(), 2);
    assert_eq!(hosts.names(), vec!["kept".to_string()]);
    assert_eq!(instructors.names(), vec!["ivy".to_string()]);
    assert_eq!(translations.len(), 1);
}

#[test]
fn translations_due_together_keep_creation_order() {
    let mut repo = TranslationRepo::new();
    repo.create(&task(0, "a", "2024-02-01", &[])).unwrap();
    repo.create(&task(0, "b", "2024-01-01", &[])).unwrap();
    repo.create(&task(0, "c", "2024-02-01", &[])).unwrap();
    repo.create(&task(0, "d", "2024-02-01", &[])).unwrap();
    assert_eq!(ids(&repo.tasks()), vec![1, 2, 3, 4]);
    assert_eq!(ids(&sort_by_due(&repo.tasks())), vec![2, 1, 3, 4]);
    assert_eq!(repo.update(&task(1, "a2", "2024-02-01", &[])), Ok(()));
    assert_eq!(ids(&repo.tasks()), vec![1, 2, 3, 4]);
    assert_eq!(ids(&sort_by_due(&repo.tasks())), vec![2, 1, 3, 4]);
}

#[test]
fn sort_by_due_keeps_every_task() {
    let tasks = vec![
        task(1, "a", "2024-05-01", &[]),
        task(2, "b", "2024-01-01", &[]),
        task(3, "c", "2024-05-01", &[]),
        task(4, "d", "2023-12-31", &[]),
    ];
    assert_eq!(ids(&sort_by_due(&tasks)), vec![4, 2, 1, 3]);
    assert!(sort_by_due(&Vec::new()).is_empty());
}
