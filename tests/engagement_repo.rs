use engage::{
    Engagement, EngagementQuery, EngagementRepo, FlyerStatus, HostStatus, Language,
    NewEngagement, RepoError, Status, ValidationError,
};

fn eng(id: u128, title: &str) -> Engagement {
    Engagement {
        id,
        instructor: "Ana".to_string(),
        host: "Ben".to_string(),
        date: "2024-05-17".to_string(),
        language: Language::Spanish,
        title: title.to_string(),
        part: 1,
        num_parts: 2,
        status: Status::Planning,
        host_status: Some(HostStatus::Invited),
        flyer_status: Some(FlyerStatus::Pending),
        notes: None,
        number: 0,
        activity_type: None,
        last_updated_by: Some("carol".to_string()),
    }
}

fn request(number: &str) -> NewEngagement {
    NewEngagement {
        instructor: "Ana <b>bold</b>".to_string(),
        host: "Ben".to_string(),
        date: "2024-05-17".to_string(),
        language: Language::French,
        title: "XSS<script>attack</script>".to_string(),
        part: 1,
        num_parts: 3,
        status: Status::Invited,
        host_status: HostStatus::Planning,
        flyer_status: FlyerStatus::Sent,
        notes: "n".to_string(),
        number: number.to_string(),
        activity_type: "talk".to_string(),
        last_updated_by: "dave".to_string(),
    }
}

fn empty_query() -> EngagementQuery {
    EngagementQuery {
        language: None,
        number: None,
        activity_type: None,
        instructor: None,
        host: None,
        date: None,
        status: None,
        host_status: None,
        flyer_status: None,
    }
}

fn keys_by_id(repo: &EngagementRepo) -> Vec<(u128, usize)> {
    repo.records().iter().map(|e| (e.id, e.number)).collect()
}

fn keys_are_contiguous(repo: &EngagementRepo) -> bool {
    let mut keys: Vec<usize> = repo.records().iter().map(|e| e.number).collect();
    keys.sort();
    keys == (1..=repo.len()).collect::<Vec<usize>>()
}

fn three_records() -> EngagementRepo {
    let mut repo = EngagementRepo::new();
    assert_eq!(repo.insert(eng(1, "a"), 1), Ok(()));
    assert_eq!(repo.insert(eng(2, "b"), 2), Ok(()));
    assert_eq!(repo.insert(eng(3, "c"), 3), Ok(()));
    repo
}

#[test]
fn insert_in_middle_then_delete_first() {
    let mut repo = three_records();
    assert_eq!(repo.insert(eng(4, "d"), 2), Ok(()));
    assert_eq!(keys_by_id(&repo), vec![(1, 1), (4, 2), (2, 3), (3, 4)]);
    assert_eq!(repo.delete(1), Ok(()));
    assert_eq!(keys_by_id(&repo), vec![(4, 1), (2, 2), (3, 3)]);
}

#[test]
fn keys_stay_contiguous_through_mixed_operations() {
    let mut repo = EngagementRepo::new();
    let ops: Vec<(bool, u128, usize)> = vec![
        (true, 10, 1),
        (true, 11, 1),
        (true, 12, 3),
        (true, 13, 2),
        (false, 11, 0),
        (true, 14, 1),
        (false, 12, 0),
        (false, 10, 0),
        (true, 15, 3),
    ];
    for (is_insert, id, key) in ops {
        if is_insert {
            assert_eq!(repo.insert(eng(id, "x"), key), Ok(()));
        } else {
            assert_eq!(repo.delete(id), Ok(()));
        }
        assert!(keys_are_contiguous(&repo));
    }
    assert_eq!(repo.len(), 3);
}

#[test]
fn insert_then_delete_restores_keys() {
    let mut repo = three_records();
    let before = keys_by_id(&repo);
    assert_eq!(repo.insert(eng(9, "z"), 1), Ok(()));
    assert_eq!(repo.delete(9), Ok(()));
    assert_eq!(keys_by_id(&repo), before);
}

#[test]
fn inserts_in_any_order_fill_keys() {
    let mut repo = EngagementRepo::new();
    let keys: Vec<usize> = vec![1, 1, 2, 4, 3, 6, 1];
    for (i, k) in keys.iter().enumerate() {
        assert_eq!(repo.insert(eng(100 + i as u128, "m"), *k), Ok(()));
    }
    assert!(keys_are_contiguous(&repo));
    assert_eq!(repo.len(), 7);
}

#[test]
fn delete_missing_is_not_found() {
    let mut repo = three_records();
    let before = keys_by_id(&repo);
    assert_eq!(repo.delete(77), Err(RepoError::NotFound));
    assert_eq!(repo.len(), 3);
    assert_eq!(keys_by_id(&repo), before);
}

#[test]
fn insert_rejects_out_of_range_keys() {
    let mut repo = three_records();
    assert_eq!(repo.insert(eng(5, "e"), 0), Err(RepoError::InvalidKey));
    assert_eq!(repo.insert(eng(5, "e"), 5), Err(RepoError::InvalidKey));
    assert_eq!(repo.len(), 3);
    assert_eq!(repo.insert(eng(5, "e"), 4), Ok(()));
    assert_eq!(keys_by_id(&repo), vec![(1, 1), (2, 2), (3, 3), (5, 4)]);
}

#[test]
fn insert_rejects_held_identity() {
    let mut repo = three_records();
    assert_eq!(repo.insert(eng(2, "again"), 1), Err(RepoError::DuplicateId));
    assert_eq!(repo.len(), 3);
}

#[test]
fn update_keeps_key_and_replaces_payload() {
    let mut repo = three_records();
    let mut changed = eng(2, "renamed");
    changed.number = 3;
    assert_eq!(repo.update(changed), Ok(()));
    let recs = repo.records();
    assert_eq!(recs[1].id, 2);
    assert_eq!(recs[1].number, 2);
    assert_eq!(recs[1].title, "renamed");
    assert_eq!(repo.update(eng(42, "none")), Err(RepoError::NotFound));
}

#[test]
fn restore_empty_then_noop() {
    let mut repo = EngagementRepo::new();
    let mut artifact = Vec::new();
    for k in 1..=5usize {
        let mut e = eng(k as u128, "r");
        e.number = k;
        artifact.push(e);
    }
    assert_eq!(repo.restore(artifact), Ok(true));
    assert_eq!(keys_by_id(&repo), vec![(1, 1), (2, 2), (3, 3), (4, 4), (5, 5)]);
    let mut other = eng(50, "other");
    other.number = 1;
    assert_eq!(repo.restore(vec![other]), Ok(false));
    assert_eq!(keys_by_id(&repo), vec![(1, 1), (2, 2), (3, 3), (4, 4), (5, 5)]);
}

#[test]
fn restore_non_empty_keeps_identities() {
    let mut repo = three_records();
    let mut e = eng(8, "q");
    e.number = 1;
    assert_eq!(repo.restore(vec![e]), Ok(false));
    let ids: Vec<u128> = repo.records().iter().map(|e| e.id).collect();
    assert_eq!(ids, vec![1, 2, 3]);
}

#[test]
fn restore_refuses_gapped_artifact() {
    let mut repo = EngagementRepo::new();
    let mut a = eng(1, "a");
    a.number = 1;
    let mut b = eng(2, "b");
    b.number = 3;
    assert_eq!(repo.restore(vec![a, b]), Err(RepoError::SnapshotDecodeFailed));
    assert!(repo.is_empty());
}

#[test]
fn query_filters_in_key_order() {
    let mut repo = three_records();
    let mut french = eng(4, "fr");
    french.language = Language::French;
    assert_eq!(repo.insert(french, 1), Ok(()));
    let mut q = empty_query();
    q.language = Some(Language::Spanish);
    let found: Vec<(u128, usize)> = repo.query(&q).iter().map(|e| (e.id, e.number)).collect();
    assert_eq!(found, vec![(1, 2), (2, 3), (3, 4)]);
    q.language = Some(Language::Any);
    assert_eq!(repo.query(&q).len(), 4);
    let mut by_title = empty_query();
    by_title.number = Some(1);
    let first: Vec<u128> = repo.query(&by_title).iter().map(|e| e.id).collect();
    assert_eq!(first, vec![4]);
    let mut by_host_status = empty_query();
    by_host_status.host_status = Some(HostStatus::Confirmed);
    assert!(repo.query(&by_host_status).is_empty());
    let mut by_activity = empty_query();
    by_activity.activity_type = Some("talk".to_string());
    assert!(repo.query(&by_activity).is_empty());
}

#[test]
fn add_sanitises_and_places_by_requested_key() {
    let mut repo = three_records();
    let id = repo.add_with(&request("2"), 99, "2024-06-01");
    assert_eq!(id, Ok(()));
    let recs = repo.records();
    assert_eq!(recs[1].id, 99);
    assert_eq!(recs[1].number, 2);
    assert_eq!(recs[1].title, "XSS");
    assert_eq!(recs[1].instructor, "Ana <b>bold</b>");
    assert_eq!(recs[1].last_updated_by, Some("dave 2024-06-01".to_string()));
    assert_eq!(recs[1].host_status, Some(HostStatus::Planning));
    assert_eq!(recs[3].id, 3);
    assert_eq!(recs[3].number, 4);
}

#[test]
fn add_draws_fresh_identity() {
    let mut repo = EngagementRepo::new();
    let id = repo.add(&request("1")).unwrap();
    let recs = repo.records();
    assert_eq!(recs[0].id, id);
    assert!(recs[0].last_updated_by.as_ref().unwrap().starts_with("dave "));
}

#[test]
fn add_reports_refusals() {
    let mut repo = three_records();
    let mut bad_date = request("1");
    bad_date.date = "2024-13-01".to_string();
    assert_eq!(repo.add_with(&bad_date, 9, "d"), Err(RepoError::Invalid(ValidationError::BadDate)));
    let mut zero = request("1");
    zero.part = 0;
    assert_eq!(repo.add_with(&zero, 9, "d"), Err(RepoError::Invalid(ValidationError::ZeroPart)));
    assert_eq!(repo.add_with(&request("x1"), 9, "d"), Err(RepoError::InvalidKey));
    assert_eq!(repo.add_with(&request("5"), 9, "d"), Err(RepoError::InvalidKey));
    assert_eq!(repo.add_with(&request("1"), 2, "d"), Err(RepoError::DuplicateId));
    assert_eq!(repo.len(), 3);
}

#[test]
fn edit_stamps_and_keeps_key() {
    let mut repo = three_records();
    let mut changed = eng(3, "<i>new</i> title");
    changed.number = 1;
    changed.last_updated_by = Some("erin".to_string());
    assert_eq!(repo.edit_with(&changed, "2024-07-02"), Ok(()));
    let recs = repo.records();
    assert_eq!(recs[2].id, 3);
    assert_eq!(recs[2].number, 3);
    assert_eq!(recs[2].title, "<i>new</i> title");
    assert_eq!(recs[2].notes, Some(String::new()));
    assert_eq!(recs[2].last_updated_by, Some("erin 2024-07-02".to_string()));
    assert_eq!(repo.edit_with(&eng(70, "t"), "2024-07-02"), Err(RepoError::NotFound));
    let mut bad = eng(3, "t");
    bad.num_parts = 0;
    assert_eq!(repo.edit(&bad), Err(RepoError::Invalid(ValidationError::ZeroParts)));
}

#[test]
fn restore_accepts_records_in_any_order() {
    let mut repo = EngagementRepo::new();
    let mut artifact = Vec::new();
    for k in [2usize, 1, 3, 5, 4] {
        let mut e = eng(10 + k as u128, "r");
        e.number = k;
        artifact.push(e);
    }
    assert_eq!(repo.restore(artifact), Ok(true));
    assert_eq!(keys_by_id(&repo), vec![(11, 1), (12, 2), (13, 3), (14, 4), (15, 5)]);
}

#[test]
fn restore_refuses_repeated_key() {
    let mut repo = EngagementRepo::new();
    let mut a = eng(1, "a");
    a.number = 1;
    let mut b = eng(2, "b");
    b.number = 1;
    assert_eq!(repo.restore(vec![a, b]), Err(RepoError::SnapshotDecodeFailed));
    let mut c = eng(3, "c");
    c.number = 2;
    let mut d = eng(3, "d");
    d.number = 1;
    assert_eq!(repo.restore(vec![c, d]), Err(RepoError::SnapshotDecodeFailed));
    assert!(repo.is_empty());
}

#[test]
fn edit_stamps_editor_and_date() {
    let mut repo = three_records();
    let mut changed = eng(1, "t");
    changed.last_updated_by = Some("fay".to_string());
    assert_eq!(repo.edit(&changed), Ok(()));
    let stamp = repo.records()[0].last_updated_by.clone().unwrap();
    assert!(stamp.starts_with("fay "));
    assert_eq!(stamp.len(), "fay ".len() + 10);
}
