use faff_core::storage::{parent_path, FileSystemStorage, StorageError};
use faff_core::toy::Toy;
use faff_core::intent::Intent;
use faff_core::plan::Plan;
use faff_core::resolver::{parse_plan_filename, resolve_plans, select_plan_files, PlanCache};
use faff_core::time::Date;
use faff_core::vocab::{
    get_actions, get_intents, get_local_plan, get_local_plan_or_create, get_objectives,
    get_plan_by_tracker_id, get_roles, get_subjects, get_trackers,
};

fn d(y: i32, m: u32, day: u32) -> Date {
    Date::new(y, m, day).unwrap()
}

fn sample_intent() -> Intent {
    Intent::new(
        Some("work".to_string()),
        Some("engineer".to_string()),
        Some("development".to_string()),
        Some("coding".to_string()),
        Some("features".to_string()),
        vec![],
    )
}

fn empty_plan(source: &str, from: Date) -> Plan {
    Plan::new(source.to_string(), from, None, vec![], vec![], vec![], vec![], Vec::new(), vec![])
}

#[test]
fn plan_test_create_minimal_plan() {
    let plan = empty_plan("local", d(2025, 3, 20));

    assert_eq!(plan.source, "local");
    assert_eq!(plan.valid_from, d(2025, 3, 20));
    assert_eq!(plan.valid_until, None);
    assert!(plan.roles.is_empty());
    assert!(plan.intents.is_empty());
}

#[test]
fn plan_test_create_full_plan() {
    let trackers = vec![("work".to_string(), "id123".to_string())];

    let plan = Plan::new(
        "https://example.com/plan".to_string(),
        d(2025, 3, 20),
        Some(d(2025, 4, 1)),
        vec!["engineer".to_string()],
        vec!["coding".to_string()],
        vec!["development".to_string()],
        vec!["features".to_string()],
        trackers.clone(),
        vec![],
    );

    assert_eq!(plan.source, "https://example.com/plan");
    assert_eq!(plan.valid_until, Some(d(2025, 4, 1)));
    assert_eq!(plan.roles, vec!["engineer"]);
    assert_eq!(plan.trackers, trackers);
}

#[test]
fn plan_test_id_from_simple_source() {
    let plan = empty_plan("local", d(2025, 3, 20));
    assert_eq!(plan.id(), "local");
}

#[test]
fn plan_test_id_from_url_source() {
    let plan = empty_plan("https://example.com/my-plan", d(2025, 3, 20));
    assert_eq!(plan.id(), "https-example-com-my-plan");
}

#[test]
fn plan_test_id_with_spaces() {
    let plan = empty_plan("My Work Plan", d(2025, 3, 20));
    assert_eq!(plan.id(), "my-work-plan");
}

#[test]
fn plan_test_add_intent_to_empty_plan() {
    let plan = empty_plan("local", d(2025, 3, 20));

    let intent = sample_intent();
    let new_plan = plan.add_intent(intent.clone());

    assert_eq!(new_plan.intents.len(), 1);
    assert_eq!(new_plan.intents[0], intent);
    assert_eq!(plan.intents.len(), 0);
}

#[test]
fn plan_test_add_intent_to_plan_with_intents() {
    let intent1 = sample_intent();
    let plan = Plan::new(
        "local".to_string(),
        d(2025, 3, 20),
        None,
        vec![],
        vec![],
        vec![],
        vec![],
        Vec::new(),
        vec![intent1.clone()],
    );

    let intent2 = Intent::new(
        Some("review".to_string()),
        Some("manager".to_string()),
        Some("quality".to_string()),
        Some("reviewing".to_string()),
        Some("code".to_string()),
        vec![],
    );

    let new_plan = plan.add_intent(intent2.clone());

    assert_eq!(new_plan.intents.len(), 2);
    assert!(new_plan.intents.contains(&intent1));
    assert!(new_plan.intents.contains(&intent2));
}

#[test]
fn plan_test_add_duplicate_intent_deduplicates() {
    let intent = sample_intent();
    let plan = Plan::new(
        "local".to_string(),
        d(2025, 3, 20),
        None,
        vec![],
        vec![],
        vec![],
        vec![],
        Vec::new(),
        vec![intent.clone()],
    );

    let new_plan = plan.add_intent(intent);

    assert_eq!(new_plan.intents.len(), 1);
}

#[test]
fn test_plan_with_valid_until() {
    let plan = Plan::new(
        "local".to_string(),
        d(2025, 3, 20),
        Some(d(2025, 4, 1)),
        vec![],
        vec![],
        vec![],
        vec![],
        Vec::new(),
        vec![],
    );

    assert_eq!(plan.valid_until, Some(d(2025, 4, 1)));
    assert!(plan.is_valid_on(&d(2025, 4, 1)));
    assert!(!plan.is_valid_on(&d(2025, 4, 2)));
    assert!(!plan.is_valid_on(&d(2025, 3, 19)));
}

#[test]
fn test_plan_immutability() {
    let plan = empty_plan("local", d(2025, 3, 20));

    let intent = sample_intent();
    let new_plan = plan.add_intent(intent);

    assert_eq!(plan.intents.len(), 0);
    assert_eq!(new_plan.intents.len(), 1);
}

#[test]
fn test_plan_clone() {
    let plan = Plan::new(
        "local".to_string(),
        d(2025, 3, 20),
        None,
        vec!["engineer".to_string()],
        vec![],
        vec![],
        vec![],
        Vec::new(),
        vec![],
    );

    let cloned = plan.clone();

    assert_eq!(plan, cloned);
    assert_eq!(plan.source, cloned.source);
    assert_eq!(plan.roles, cloned.roles);
}

#[test]
fn test_plan_with_multiple_trackers() {
    let trackers = vec![
        ("ABC-123".to_string(), "Bug fix".to_string()),
        ("DEF-456".to_string(), "Feature request".to_string()),
        ("GHI-789".to_string(), "Refactoring".to_string()),
    ];

    let plan = Plan::new(
        "project".to_string(),
        d(2025, 3, 20),
        None,
        vec![],
        vec![],
        vec![],
        vec![],
        trackers.clone(),
        vec![],
    );

    assert_eq!(plan.trackers.len(), 3);
    assert_eq!(plan.trackers, trackers);
}

#[test]
fn plan_file_names() {
    assert_eq!(
        parse_plan_filename("local.20250301.toml"),
        Some(("local".to_string(), d(2025, 3, 1)))
    );
    assert_eq!(
        parse_plan_filename("a.b.20250301.toml"),
        Some(("a.b".to_string(), d(2025, 3, 1)))
    );
    assert_eq!(parse_plan_filename(".20250301.toml"), None);
    assert_eq!(parse_plan_filename("local.20250230.toml"), None);
    assert_eq!(parse_plan_filename("local.20250301.json"), None);
    assert_eq!(parse_plan_filename("local.2025031.toml"), None);
}

#[test]
fn latest_plan_file_not_after_date_wins() {
    let names = vec![
        "local.20250101.toml".to_string(),
        "local.20250301.toml".to_string(),
        "local.20250401.toml".to_string(),
        "other.20250201.toml".to_string(),
        "notes.txt".to_string(),
    ];
    let picked = select_plan_files(&names, &d(2025, 3, 15));
    assert_eq!(picked, vec![1, 3]);
    let picked_early = select_plan_files(&names, &d(2025, 1, 15));
    assert_eq!(picked_early, vec![0]);
}

#[test]
fn resolution_keeps_latest_valid_plan_per_source() {
    let plans = vec![
        empty_plan("local", d(2025, 1, 1)),
        empty_plan("local", d(2025, 3, 1)),
        Plan::new(
            "remote".to_string(),
            d(2025, 1, 1),
            Some(d(2025, 2, 1)),
            vec![],
            vec![],
            vec![],
            vec![],
            Vec::new(),
            vec![],
        ),
        empty_plan("future", d(2025, 4, 1)),
    ];
    let r = resolve_plans(&plans, &d(2025, 3, 15));
    assert_eq!(r.len(), 1);
    assert_eq!(r[0].source, "local");
    assert_eq!(r[0].valid_from, d(2025, 3, 1));
    assert_eq!(r[0], plans[1]);
}

#[test]
fn cache_returns_stored_plans_until_cleared() {
    let mut cache = PlanCache::new();
    let day = d(2025, 3, 15);
    assert!(cache.get(&day).is_none());
    cache.put(day, vec![empty_plan("local", d(2025, 3, 1))]);
    let first = cache.get(&day).unwrap();
    let second = cache.get(&day).unwrap();
    assert_eq!(first.len(), 1);
    assert_eq!(first[0].source, second[0].source);
    assert!(cache.get(&d(2025, 3, 16)).is_none());
    cache.clear();
    assert!(cache.get(&day).is_none());
}

fn vocab_plans() -> Vec<Plan> {
    vec![
        Plan::new(
            "element".to_string(),
            d(2025, 1, 1),
            None,
            vec!["engineer".to_string(), "admin".to_string()],
            vec!["coding".to_string()],
            vec!["ship".to_string()],
            vec!["api".to_string()],
            vec![("12345".to_string(), "Fix critical bug".to_string())],
            vec![sample_intent()],
        ),
        Plan::new(
            "local".to_string(),
            d(2025, 1, 1),
            None,
            vec!["engineer".to_string()],
            vec![],
            vec![],
            vec![],
            vec![("7".to_string(), "Seven".to_string())],
            vec![sample_intent()],
        ),
    ]
}

#[test]
fn vocabulary_is_prefixed_sorted_and_deduplicated() {
    let plans = vocab_plans();
    assert_eq!(
        get_roles(&plans),
        vec!["element:admin", "element:engineer", "engineer", "local:engineer"]
    );
    assert_eq!(get_actions(&plans), vec!["coding", "element:coding"]);
    assert_eq!(get_objectives(&plans), vec!["development", "element:ship"]);
    assert_eq!(get_subjects(&plans), vec!["element:api", "features"]);
}

#[test]
fn trackers_and_tracker_lookup() {
    let plans = vocab_plans();
    assert_eq!(
        get_trackers(&plans),
        vec![
            ("element:12345".to_string(), "Fix critical bug".to_string()),
            ("local:7".to_string(), "Seven".to_string()),
        ]
    );
    assert_eq!(get_plan_by_tracker_id(&plans, &"7".to_string()).unwrap().source, "local");
    assert!(get_plan_by_tracker_id(&plans, &"8".to_string()).is_none());
}

#[test]
fn intents_are_deduplicated() {
    let plans = vocab_plans();
    let intents = get_intents(&plans);
    assert_eq!(intents.len(), 1);
    assert_eq!(intents[0], sample_intent());
}

#[test]
fn local_plan_lookup_and_creation() {
    let plans = vocab_plans();
    assert_eq!(get_local_plan(&plans).unwrap().source, "local");
    let none: Vec<Plan> = Vec::new();
    assert!(get_local_plan(&none).is_none());
    let created = get_local_plan_or_create(&none, d(2025, 5, 5));
    assert_eq!(created.source, "local");
    assert_eq!(created.valid_from, d(2025, 5, 5));
    assert!(created.intents.is_empty());
}

#[test]
fn toy_says_its_word() {
    let t = Toy { word: "hi".to_string() };
    assert_eq!(t.hello().unwrap(), "hi");
    assert_eq!(t.toy("yo".to_string()).word, "yo");
}

#[test]
fn storage_paths() {
    assert_eq!(parent_path("/a/b"), Some("/a".to_string()));
    assert_eq!(parent_path("/a"), Some("/".to_string()));
    assert_eq!(parent_path("/"), None);
    assert_eq!(parent_path("a"), Some("".to_string()));
    let s = FileSystemStorage::from_path("/home/me/work".to_string(), |p: String| p == "/home/me/.faff")
        .unwrap();
    assert_eq!(s.faff_root, "/home/me");
    assert_eq!(s.log_dir(), "/home/me/.faff/logs");
    assert_eq!(s.log_file_path(d(2025, 3, 5)), "/home/me/.faff/logs/2025-03-05.toml");
    assert_eq!(
        FileSystemStorage::from_path("/x/y".to_string(), |_p: String| false).unwrap_err(),
        StorageError::NoFaffDirectory
    );
}
