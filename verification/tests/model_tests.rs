use token_monitor::hashing::credential_hash;
use token_monitor::migrate::{all_migrations, pending_migrations};
use token_monitor::models::{
    DailyActivity, MessageUsage, ModelUsage, Provider, ProviderStats, StatsCache,
};
use token_monitor::pricing::PricingService;
use token_monitor::watcher::{is_jsonl_file, is_settings_file};

#[test]
fn test_message_usage_default() {
    let usage = MessageUsage::default();

    assert_eq!(usage.input_tokens, 0);
    assert_eq!(usage.output_tokens, 0);
    assert_eq!(usage.cost_micros, 0);
}

#[test]
fn test_provider_new() {
    let provider = Provider::new("sk-ant-api-test-key", Some("测试账号".to_string()), None);

    assert_eq!(provider.api_key_prefix, "sk-ant-a");
    assert_eq!(provider.display_name, Some("测试账号".to_string()));
    assert!(provider.is_active);
}

#[test]
fn test_cache_hit_rate_calculation() {
    let provider = Provider::new("sk-ant-test", None, None);
    let mut stats = ProviderStats::new(provider);

    stats.today_cache_read_tokens = 300;
    stats.today_input_tokens = 700;
    stats.update_cache_hit_rate();

    // 0.3 of one million.
    assert_eq!(stats.cache_hit_rate, 300_000);
}

#[test]
fn test_model_usage_cache_hit_rate() {
    let mut usage = ModelUsage::new("opus".to_string());
    usage.cache_read_tokens = 400;
    usage.input_tokens = 600;

    // 0.4 of one million.
    assert_eq!(usage.cache_hit_rate(), 400_000);
}

#[test]
fn test_stats_cache_default() {
    let cache = StatsCache::default();

    assert_eq!(cache.total_input_tokens, 0);
    assert_eq!(cache.total_cost_micros, 0);
    assert!(cache.models.is_empty());
}

#[test]
fn test_add_or_update_model() {
    let mut cache = StatsCache::default();

    let usage1 = ModelUsage {
        model: "opus".to_string(),
        input_tokens: 100,
        output_tokens: 50,
        cache_read_tokens: 0,
        cache_creation_tokens: 0,
        cost_micros: 500_000,
        message_count: 1,
    };

    cache.add_or_update_model(usage1);
    assert_eq!(cache.models.len(), 1);

    let usage2 = ModelUsage {
        model: "opus".to_string(),
        input_tokens: 200,
        output_tokens: 100,
        cache_read_tokens: 0,
        cache_creation_tokens: 0,
        cost_micros: 1_000_000,
        message_count: 1,
    };

    cache.add_or_update_model(usage2);
    assert_eq!(cache.models.len(), 1);
    assert_eq!(cache.models[0].input_tokens, 300);
    assert_eq!(cache.models[0].cost_micros, 1_500_000);
}

#[test]
fn test_daily_activity_total_tokens() {
    let activity = DailyActivity {
        date: "2026-01-08".to_string(),
        input_tokens: 1000,
        output_tokens: 500,
        cost_micros: 2_500_000,
        session_count: 5,
        message_count: 20,
    };

    assert_eq!(activity.total_tokens(), 1500);
}

#[test]
fn test_calculate_cost() {
    let service = PricingService::new();
    // A vendor's qualified model name reaches its family's rates.
    let cost = service.calculate_cost("vendor-3-opus", 1_000_000, 0, 0, 0);

    // 15 dollars, in micro-dollars.
    assert_eq!(cost, 15_000_000);
}

#[test]
fn test_calculate_cost_bare_family() {
    let service = PricingService::new();
    assert_eq!(service.calculate_cost("opus", 1_000_000, 0, 0, 0), 15_000_000);
    assert_eq!(service.calculate_cost("vendor-3-haiku", 1_000_000, 0, 0, 0), 250_000);
}

#[test]
fn test_calculate_cost_unknown_model() {
    let service = PricingService::new();
    assert_eq!(service.calculate_cost("unheard-of", 1_000_000, 1_000_000, 0, 0), 0);
}

#[test]
fn test_credential_hash_is_sha256_hex() {
    // SHA-256 of "abc", a published reference value.
    assert_eq!(
        credential_hash("abc"),
        "ba7816bf8f01cfea414140de5dae2223b00361a396177a9cb410ff61f20015ad"
    );
}

#[test]
fn test_sort_models_by_cost() {
    let mut cache = StatsCache::default();
    let mut cheap = ModelUsage::new("cheap".to_string());
    cheap.cost_micros = 10;
    let mut dear = ModelUsage::new("dear".to_string());
    dear.cost_micros = 999;
    cache.add_or_update_model(cheap);
    cache.add_or_update_model(dear);
    cache.sort_models_by_cost();
    assert_eq!(cache.models[0].model, "dear");
    assert_eq!(cache.models[1].model, "cheap");
}

#[test]
fn test_file_classification() {
    assert!(is_settings_file("/home/user/.cli/settings.json"));
    assert!(is_settings_file("settings.json"));
    assert!(is_settings_file("/home/user/.cli/settings.json/"));
    assert!(!is_settings_file("/home/user/.cli/other.json"));
    assert!(is_jsonl_file("/logs/session-1.jsonl"));
    assert!(is_jsonl_file("trace.JSONL"));
    assert!(!is_jsonl_file("notes.json"));
    assert!(!is_jsonl_file(".jsonl"));
}

#[test]
fn test_migrations() {
    let all = all_migrations();
    assert_eq!(all.len(), 1);
    assert_eq!(all[0].version, 1);
    assert_eq!(all[0].description, "init core tables");

    assert_eq!(pending_migrations(0).len(), 1);
    assert_eq!(pending_migrations(1).len(), 0);
}
