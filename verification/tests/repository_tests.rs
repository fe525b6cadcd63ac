use chrono::{Local, Utc};

use token_monitor::models::{MessageRecord, MessageUsage};
use token_monitor::parser::Settings;
use token_monitor::store::{Repository, RepositoryError};
use token_monitor::tracker::ProviderTracker;
use token_monitor::watcher::{process_changes, FileChange};

fn record(session: &str, message: &str, input: i64, output: i64, cost_micros: i64) -> MessageRecord {
    MessageRecord::new(
        session.to_string(),
        message.to_string(),
        "opus".to_string(),
        Utc::now().to_rfc3339(),
        MessageUsage {
            input_tokens: input,
            output_tokens: output,
            cache_read_tokens: 0,
            cache_creation_tokens: 0,
            cost_micros,
        },
    )
}

#[test]
fn test_repository_insert_and_stats() {
    let mut repo = Repository::new_in_memory().expect("repo");
    let provider = repo.upsert_provider("sk-test", None).expect("provider");

    let record = MessageRecord::new(
        "session-1".to_string(),
        "message-1".to_string(),
        "opus".to_string(),
        Utc::now().to_rfc3339(),
        MessageUsage {
            input_tokens: 100,
            output_tokens: 50,
            cache_read_tokens: 0,
            cache_creation_tokens: 0,
            cost_micros: 1_000_000,
        },
    );

    repo.insert_message_usage(provider.id, &record).expect("insert");

    let stats = repo.get_current_stats().expect("stats");
    assert_eq!(stats.total_input_tokens, 100);
    assert_eq!(stats.total_messages, 1);
}

#[test]
fn test_get_daily_activities() {
    let mut repo = Repository::new_in_memory().expect("repo");
    let provider = repo.upsert_provider("sk-test", None).expect("provider");

    let record = MessageRecord::new(
        "session-1".to_string(),
        "message-1".to_string(),
        "opus".to_string(),
        Local::now().to_rfc3339(),
        MessageUsage {
            input_tokens: 10,
            output_tokens: 5,
            cache_read_tokens: 0,
            cache_creation_tokens: 0,
            cost_micros: 100_000,
        },
    );

    repo.insert_message_usage(provider.id, &record).expect("insert");

    let today = Local::now().date_naive().to_string();
    let activities = repo.get_daily_activities(&today, &today).expect("activities");

    assert_eq!(activities.len(), 1);
    assert_eq!(activities[0].message_count, 1);
}

#[test]
fn test_repository_end_to_end_flow() {
    let mut repo = Repository::new_in_memory().expect("repo");
    let provider = repo.upsert_provider("sk-integration", None).expect("provider");

    let record = MessageRecord::new(
        "session-int".to_string(),
        "message-int".to_string(),
        "opus".to_string(),
        Utc::now().to_rfc3339(),
        MessageUsage {
            input_tokens: 20,
            output_tokens: 10,
            cache_read_tokens: 0,
            cache_creation_tokens: 0,
            cost_micros: 200_000,
        },
    );

    repo.insert_message_usage(provider.id, &record).expect("insert");

    let stats = repo.get_current_stats().expect("stats");
    assert_eq!(stats.total_messages, 1);
}

#[test]
fn test_track_from_settings() {
    let repository = Repository::new_in_memory().expect("repo");
    let mut tracker = ProviderTracker::new(repository);
    let settings = Settings { api_key: "sk-test".to_string(), base_url: None };

    let provider = tracker.track_from_settings(&settings).expect("track");
    assert_eq!(provider.api_key_prefix, "sk-test");
}

#[test]
fn test_dedup_idempotence() {
    let mut repo = Repository::new_in_memory().expect("repo");
    let provider = repo.upsert_provider("sk-dup", None).expect("provider");

    let r = record("s1", "m1", 100, 50, 1_000_000);
    repo.insert_message_usage(provider.id, &r).expect("first insert");
    repo.insert_message_usage(provider.id, &r).expect("replay insert");

    let stats = repo.get_current_stats().expect("stats");
    assert_eq!(stats.total_messages, 1);
    assert_eq!(stats.total_input_tokens, 100);
    assert_eq!(stats.total_cost_micros, 1_000_000);
    assert_eq!(stats.total_sessions, 1);
}

#[test]
fn test_session_counted_once_per_day() {
    let mut repo = Repository::new_in_memory().expect("repo");
    let provider = repo.upsert_provider("sk-sess", None).expect("provider");

    let r1 = record("shared-session", "m1", 1, 1, 0);
    let r2 = record("shared-session", "m2", 2, 2, 0);
    repo.insert_message_usage_on(provider.id, &r1, "2026-01-08").expect("insert one");
    repo.insert_message_usage_on(provider.id, &r2, "2026-01-08").expect("insert two");

    let activities = repo.get_daily_activities("2026-01-08", "2026-01-08").expect("activities");
    assert_eq!(activities.len(), 1);
    assert_eq!(activities[0].message_count, 2);
    assert_eq!(activities[0].session_count, 1);
}

#[test]
fn test_single_active_provider_switch() {
    let mut repo = Repository::new_in_memory().expect("repo");
    let a = repo.upsert_provider("sk-credential-a", None).expect("a");
    let b = repo.upsert_provider("sk-credential-b", None).expect("b");
    assert_ne!(a.id, b.id);

    let active = repo.get_all_providers(true).expect("active");
    assert_eq!(active.len(), 1);
    assert_eq!(active[0].id, b.id);

    let a_again = repo.upsert_provider("sk-credential-a", None).expect("a again");
    assert_eq!(a_again.id, a.id);
    let active = repo.get_all_providers(true).expect("active");
    assert_eq!(active.len(), 1);
    assert_eq!(active[0].id, a.id);

    let all = repo.get_all_providers(false).expect("all");
    assert_eq!(all.len(), 2);
}

#[test]
fn test_daily_activities_omit_empty_dates() {
    let mut repo = Repository::new_in_memory().expect("repo");
    let provider = repo.upsert_provider("sk-range", None).expect("provider");

    let r = record("s1", "m1", 10, 5, 100_000);
    repo.insert_message_usage_on(provider.id, &r, "2026-01-08").expect("insert");

    let activities = repo.get_daily_activities("2026-01-07", "2026-01-08").expect("activities");
    assert_eq!(activities.len(), 1);
    assert_eq!(activities[0].date, "2026-01-08");
    assert_eq!(activities[0].input_tokens, 10);
}

#[test]
fn test_today_stats_zero_on_empty_store() {
    let repo = Repository::new_in_memory().expect("repo");
    let stats = repo.today_stats_on("2026-01-08").expect("stats");
    assert_eq!(stats.message_count, 0);
    assert_eq!(stats.cache_hit_rate, 0);
}

#[test]
fn test_today_provider_stats_zero_filled() {
    let mut repo = Repository::new_in_memory().expect("repo");
    repo.upsert_provider("sk-a", None).expect("a");
    let b = repo.upsert_provider("sk-b", None).expect("b");
    let r = record("s", "m", 9, 1, 0);
    repo.insert_message_usage_on(b.id, &r, "2026-01-08").expect("insert");

    let rows = repo.today_provider_stats_on("2026-01-08").expect("rows");
    assert_eq!(rows.len(), 2);
    let for_b: Vec<_> = rows.iter().filter(|s| s.provider.id == b.id).collect();
    assert_eq!(for_b[0].today_input_tokens, 9);
    let others: Vec<_> = rows.iter().filter(|s| s.provider.id != b.id).collect();
    assert_eq!(others[0].today_input_tokens, 0);
}

#[test]
fn test_rollup_overflow_is_reported() {
    let mut repo = Repository::new_in_memory().expect("repo");
    let provider = repo.upsert_provider("sk-big", None).expect("provider");

    let r1 = record("s1", "m1", i64::MAX, 0, 0);
    repo.insert_message_usage_on(provider.id, &r1, "2026-01-08").expect("first insert");
    let r2 = record("s1", "m2", 1, 0, 0);
    match repo.insert_message_usage_on(provider.id, &r2, "2026-01-08") {
        Err(RepositoryError::Overflow) => {}
        other => panic!("expected Overflow, got {:?}", other),
    }
    // The failed insert changed nothing.
    let activities = repo.get_daily_activities("2026-01-08", "2026-01-08").expect("activities");
    assert_eq!(activities[0].message_count, 1);
}

#[test]
fn test_delete_provider_cascades() {
    let mut repo = Repository::new_in_memory().expect("repo");
    let provider = repo.upsert_provider("sk-gone", None).expect("provider");
    let r = record("s1", "m1", 10, 5, 0);
    repo.insert_message_usage_on(provider.id, &r, "2026-01-08").expect("insert");

    repo.delete_provider(provider.id).expect("delete");

    assert_eq!(repo.get_all_providers(false).expect("providers").len(), 0);
    let stats = repo.get_current_stats().expect("stats");
    assert_eq!(stats.total_messages, 0);
    assert_eq!(stats.total_input_tokens, 0);
    let activities = repo.get_daily_activities("2026-01-01", "2026-12-31").expect("activities");
    assert_eq!(activities.len(), 0);
}

#[test]
fn test_create_provider_stays_inactive() {
    let mut repo = Repository::new_in_memory().expect("repo");
    let live = repo.upsert_provider("sk-live", None).expect("live");
    let manual = repo.create_provider("sk-manual", Some("backup".to_string())).expect("manual");
    assert!(!manual.is_active);
    assert_eq!(manual.display_name, Some("backup".to_string()));

    // The live session is undisturbed.
    let active = repo.get_active_provider().expect("active").expect("some");
    assert_eq!(active.id, live.id);

    // Re-registering an existing credential only renames it.
    let renamed = repo.create_provider("sk-live", Some("main".to_string())).expect("rename");
    assert_eq!(renamed.id, live.id);
    assert_eq!(renamed.display_name, Some("main".to_string()));
}

#[test]
fn test_update_provider_display_name() {
    let mut repo = Repository::new_in_memory().expect("repo");
    let p = repo.upsert_provider("sk-name", None).expect("provider");
    repo.update_provider_display_name(p.id, "my key").expect("rename");
    let all = repo.get_all_providers(false).expect("all");
    assert_eq!(all[0].display_name, Some("my key".to_string()));
}

#[test]
fn test_endpoint_merged_on_recognition() {
    let mut repo = Repository::new_in_memory().expect("repo");
    repo.upsert_provider("sk-url", Some("https://first".to_string())).expect("first");
    let again = repo.upsert_provider("sk-url", None).expect("again");
    assert_eq!(again.base_url, Some("https://first".to_string()));
    let third = repo.upsert_provider("sk-url", Some("https://second".to_string())).expect("third");
    assert_eq!(third.base_url, Some("https://second".to_string()));
}

#[test]
fn test_model_breakdown_sorted_by_cost() {
    let mut repo = Repository::new_in_memory().expect("repo");
    let p = repo.upsert_provider("sk-models", None).expect("provider");
    let mut r1 = record("s", "m1", 1, 1, 100);
    r1.model = "cheap-model".to_string();
    let mut r2 = record("s", "m2", 2, 2, 900_000);
    r2.model = "dear-model".to_string();
    repo.insert_message_usage(p.id, &r1).expect("insert one");
    repo.insert_message_usage(p.id, &r2).expect("insert two");

    let stats = repo.get_current_stats().expect("stats");
    assert_eq!(stats.models.len(), 2);
    assert_eq!(stats.models[0].model, "dear-model");
    assert_eq!(stats.models[1].model, "cheap-model");
    assert_eq!(stats.total_cost_micros, 900_100);
}

#[test]
fn test_process_changes_batch() {
    let mut repo = Repository::new_in_memory().expect("repo");
    let changes = vec![
        FileChange {
            path: "/home/user/.cli/settings.json".to_string(),
            content: r#"{"ANTHROPIC_AUTH_TOKEN":"sk-batch"}"#.to_string(),
        },
        FileChange {
            path: "/home/user/.cli/projects/session.jsonl".to_string(),
            content: format!(
                "{}\n{}\nnot json\n",
                r#"{"id":"m1","session_id":"s1","model":"model-a","usage":{"input_tokens":4}}"#,
                r#"{"kind":"log"}"#
            ),
        },
    ];
    let outcome = process_changes(&mut repo, &changes);
    assert_eq!(outcome.store_errors, 0);
    let provider = outcome.provider_changed.expect("provider recognized");
    assert_eq!(provider.api_key_prefix, "sk-batch");
    assert!(outcome.stats_changed);
    assert_eq!(outcome.skipped_lines, 1);

    let stats = repo.get_current_stats().expect("stats");
    assert_eq!(stats.total_messages, 1);
    assert_eq!(stats.total_input_tokens, 4);
}

#[test]
fn test_cache_hit_rate_boundary() {
    let mut repo = Repository::new_in_memory().expect("repo");
    let p = repo.upsert_provider("sk-zero", None).expect("provider");
    let r = record("s", "m", 0, 3, 0);
    repo.insert_message_usage(p.id, &r).expect("insert");
    let stats = repo.get_current_stats().expect("stats");
    // Zero input and zero cache-read tokens: the rate is exactly zero.
    assert_eq!(stats.cache_hit_rate, 0);
}
