use frontier_sim::config::{
    Config, ConfigError, ConfigFile, ConfigSource, DefaultsConfig, FileProvider, OutputConfig,
    ProviderEntry, ProvidersConfig, FIXED_PREFETCH_WORKERS,
};
use frontier_sim::events::Lane;
use frontier_sim::plan::{
    benchmark_settings, build_providers, default_range_end, download_size, kilobytes,
    parse_target, plan_chunks, run_name, BenchmarkFlags, ProviderKind, Target,
};
use frontier_sim::reactor::{Reactor, ReactorConfig};
use frontier_sim::runs::{short_key, RunRecord};
use frontier_sim::transport::{ProtocolMode, Sink};

fn standard() -> Config {
    Config::load(ConfigSource::Missing, None, None).unwrap()
}

fn no_flags() -> BenchmarkFlags {
    BenchmarkFlags { chunk_size_mb: None, prefetch_chunk_size_mb: None, workers: None }
}

fn entry(key: &str) -> Option<ProviderEntry> {
    Some(ProviderEntry { api_key: key.to_string() })
}

#[test]
fn defaults_without_config_file() {
    let config = Config::load(ConfigSource::Missing, None, None).unwrap();
    assert_eq!(config.defaults.chunk_size_mb, 4);
    assert_eq!(config.defaults.prefetch_chunk_size_mb, 8);
    assert_eq!(config.defaults.page_size_kb, 128);
    assert_eq!(config.defaults.urgent_workers, 2);
    assert_eq!(config.defaults.protocol, ProtocolMode::Auto);
    assert_eq!(config.defaults.sink, Sink::Discard);
}

#[test]
fn env_overrides_api_key() {
    let config =
        Config::load(ConfigSource::Missing, Some("test_key_123".to_string()), None).unwrap();
    let rd = config.providers.realdebrid.unwrap();
    assert_eq!(rd.api_key, "test_key_123");
}

fn number(table: Option<&toml::Value>, name: &str) -> Option<u32> {
    table.and_then(|t| t.get(name)).map(|v| u32::try_from(v.as_integer().unwrap()).unwrap())
}

fn string(table: Option<&toml::Value>, name: &str) -> Option<String> {
    table.and_then(|t| t.get(name)).map(|v| v.as_str().unwrap().to_string())
}

fn loaded(toml_str: &str) -> Config {
    let value: toml::Value = toml::from_str(toml_str).unwrap();
    let provider = |name: &str| {
        let entry = value.get("providers").and_then(|p| p.get(name));
        entry.map(|p| FileProvider { api_key: string(Some(p), "api_key") })
    };
    let defaults = value.get("defaults");
    let output = value.get("output");
    let file = ConfigFile {
        realdebrid: provider("realdebrid"),
        premiumize: provider("premiumize"),
        chunk_size_mb: number(defaults, "chunk_size_mb"),
        prefetch_chunk_size_mb: number(defaults, "prefetch_chunk_size_mb"),
        page_size_kb: number(defaults, "page_size_kb"),
        urgent_workers: number(defaults, "urgent_workers"),
        protocol: string(defaults, "protocol").map(|p| p.parse().unwrap()),
        sink: string(defaults, "sink").map(|s| match s.as_str() {
            "discard" => Sink::Discard,
            "sparse-file" => Sink::SparseFile,
            "rolling-ring" => Sink::RollingRing,
            _ => panic!("unknown sink"),
        }),
        trace_dir: string(output, "trace_dir"),
        db_path: string(output, "db_path"),
    };
    Config::load(ConfigSource::Parsed(Config::from_file(file)), None, None).unwrap()
}

#[test]
fn empty_file_gives_the_standard_configuration() {
    let config = loaded("");
    assert_eq!(config.defaults, standard().defaults);
    assert_eq!(config.output.trace_dir, "./traces");
    assert_eq!(config.output.db_path, "./frontier.db");
    assert!(config.providers.realdebrid.is_none());
    assert!(config.providers.premiumize.is_none());
}

#[test]
fn file_overrides_what_it_names() {
    let config = loaded(
        "[providers.premiumize]\n[defaults]\npage_size_kb = 64\nprotocol = \"h1\"\n\
         sink = \"rolling-ring\"\n[output]\ndb_path = \"/x.db\"\n",
    );
    assert_eq!(config.providers.premiumize.unwrap().api_key, "");
    assert!(config.providers.realdebrid.is_none());
    assert_eq!(config.defaults.page_size_kb, 64);
    assert_eq!(config.defaults.chunk_size_mb, 4);
    assert_eq!(config.defaults.protocol, ProtocolMode::H1);
    assert_eq!(config.defaults.sink, Sink::RollingRing);
    assert_eq!(config.output.trace_dir, "./traces");
    assert_eq!(config.output.db_path, "/x.db");
}

#[test]
fn parses_toml() {
    let toml_str = r#"
[providers.realdebrid]
api_key = "rd_key"

[providers.premiumize]
api_key = "pm_key"

[defaults]
chunk_size_mb = 8
prefetch_chunk_size_mb = 16
page_size_kb = 128
urgent_workers = 3
prefetch_workers = 2
protocol = "h2"
sink = "discard"

[output]
trace_dir = "/tmp/traces"
db_path = "/tmp/frontier.db"
"#;
    let config = loaded(toml_str);
    assert_eq!(config.defaults.chunk_size_mb, 8);
    assert_eq!(config.defaults.prefetch_chunk_size_mb, 16);
    assert_eq!(config.defaults.urgent_workers, 3);
    assert_eq!(config.defaults.protocol, ProtocolMode::H2);
    assert_eq!(config.output.trace_dir, "/tmp/traces");
    assert_eq!(
        config.providers.realdebrid.as_ref().unwrap().api_key,
        "rd_key"
    );
}

#[test]
fn legacy_prefetch_workers_input_does_not_change_fixed_runtime_value() {
    let toml_str = r#"
[defaults]
chunk_size_mb = 4
prefetch_chunk_size_mb = 8
urgent_workers = 2
prefetch_workers = 4
"#;

    let config = loaded(toml_str);
    assert_eq!(config.defaults.prefetch_chunk_size_mb, 8);
    assert_eq!(FIXED_PREFETCH_WORKERS, 1);
    assert_eq!(benchmark_settings(&no_flags(), &config).prefetch_workers, 1);
}

#[test]
fn output_goes_to_the_standard_places() {
    let config = standard();
    assert_eq!(config.output.trace_dir, "./traces");
    assert_eq!(config.output.db_path, "./frontier.db");
    assert!(config.providers.realdebrid.is_none());
    assert!(config.providers.premiumize.is_none());
}

#[test]
fn environment_goes_before_the_file() {
    let file = Config {
        providers: ProvidersConfig { realdebrid: entry("file_rd"), premiumize: entry("file_pm") },
        defaults: DefaultsConfig { chunk_size_mb: 16, ..DefaultsConfig::default() },
        output: OutputConfig { trace_dir: "/t".to_string(), db_path: "/d".to_string() },
    };
    let config =
        Config::load(ConfigSource::Parsed(file), None, Some("env_pm".to_string())).unwrap();
    assert_eq!(config.providers.realdebrid.unwrap().api_key, "file_rd");
    assert_eq!(config.providers.premiumize.unwrap().api_key, "env_pm");
    assert_eq!(config.defaults.chunk_size_mb, 16);
    assert_eq!(config.output.trace_dir, "/t");
    assert_eq!(config.output.db_path, "/d");
}

#[test]
fn failures_to_load_are_told_apart() {
    let unreadable = Config::load(ConfigSource::Unreadable("denied".to_string()), None, None);
    match unreadable {
        Err(ConfigError::Io(m)) => assert_eq!(m, "denied"),
        _ => panic!("expected an error"),
    }
    let malformed = Config::load(ConfigSource::Malformed("line 1".to_string()), None, None);
    assert_eq!(malformed.unwrap_err().message(), "parse error: line 1");
    assert_eq!(ConfigError::Io("x".to_string()).message(), "I/O error: x");
}

#[test]
fn flags_go_before_the_configuration() {
    let config = standard();
    let plain = benchmark_settings(&no_flags(), &config);
    assert_eq!(plain.chunk_size, 4 * 1024 * 1024);
    assert_eq!(plain.prefetch_chunk_size, 8 * 1024 * 1024);
    assert_eq!(plain.page_size, 131_072);
    assert_eq!(plain.urgent_workers, 2);
    let flags =
        BenchmarkFlags { chunk_size_mb: Some(16), prefetch_chunk_size_mb: Some(32), workers: Some(3) };
    let flagged = benchmark_settings(&flags, &config);
    assert_eq!(flagged.chunk_size_mb, 16);
    assert_eq!(flagged.chunk_size, 16_777_216);
    assert_eq!(flagged.prefetch_chunk_size_mb, 32);
    assert_eq!(flagged.prefetch_chunk_size, 33_554_432);
    assert_eq!(flagged.urgent_workers, 3);
    assert_eq!(flagged.prefetch_workers, 1);
    assert_eq!(kilobytes(u32::MAX), u32::MAX as u64 * 1024);
}

#[test]
fn plan_covers_the_download() {
    let plan = plan_chunks(1_000, 100, 300);
    let ranges: Vec<(u64, u64, u64)> =
        plan.iter().map(|c| (c.chunk_id, c.range_start, c.range_end)).collect();
    assert_eq!(
        ranges,
        vec![(0, 0, 99), (1, 100, 199), (2, 200, 499), (3, 500, 799), (4, 800, 999)]
    );
    let lanes: Vec<Lane> = plan.iter().map(|c| c.lane).collect();
    assert_eq!(
        lanes,
        vec![Lane::Urgent, Lane::Urgent, Lane::Prefetch, Lane::Prefetch, Lane::Prefetch]
    );
    assert!(plan_chunks(0, 1, 1).is_empty());
    assert_eq!(plan_chunks(5, 100, 100)[0].range_end, 4);
}

#[test]
fn plan_has_a_limit() {
    let plan = plan_chunks(u64::MAX, 1, 1);
    assert_eq!(plan.len(), 10_000);
    assert_eq!(plan[9_999].range_end, 9_999);
    let huge = plan_chunks(u64::MAX, u64::MAX, u64::MAX);
    assert_eq!(huge.len(), 1);
    assert_eq!(huge[0].range_end, u64::MAX - 1);
    let mut reactor = Reactor::new(&plan, ReactorConfig::default());
    assert_eq!(reactor.fill_slots(0, false)[0].state.chunk_id, 0);
}

#[test]
fn download_size_is_limited_by_the_flag() {
    assert_eq!(download_size(Some(100), 0), 100);
    assert_eq!(download_size(Some(100), 60), 60);
    assert_eq!(download_size(Some(100), 160), 100);
    assert_eq!(download_size(None, 60), 60);
    assert_eq!(download_size(None, 0), u64::MAX);
    assert_eq!(default_range_end(10), 10 + 4 * 1024 * 1024 - 1);
}

#[test]
fn targets_are_urls_or_keys() {
    assert!(matches!(parse_target("https://example.com/a:b"), Target::Url));
    assert!(matches!(parse_target("http://x"), Target::Url));
    assert!(matches!(parse_target("nothing"), Target::Invalid));
    assert!(matches!(parse_target(""), Target::Invalid));
    match parse_target("realdebrid:ABC123:1:52428800000") {
        Target::Asset(provider) => assert_eq!(provider, "realdebrid"),
        _ => panic!("expected an asset key"),
    }
}

#[test]
fn providers_need_keys() {
    let mut config = standard();
    assert!(build_providers(&config, None).is_empty());
    config.providers.realdebrid = entry("r");
    config.providers.premiumize = entry("p");
    let both = build_providers(&config, None);
    assert_eq!(both.len(), 2);
    assert_eq!((both[0].kind, both[0].api_key.as_str()), (ProviderKind::RealDebrid, "r"));
    assert_eq!((both[1].kind, both[1].api_key.as_str()), (ProviderKind::Premiumize, "p"));
    let one = build_providers(&config, Some("premiumize"));
    assert_eq!(one.len(), 1);
    assert_eq!(one[0].kind, ProviderKind::Premiumize);
    assert!(build_providers(&config, Some("torbox")).is_empty());
    config.providers.realdebrid = entry("");
    assert!(build_providers(&config, Some("realdebrid")).is_empty());
}

#[test]
fn runs_are_named_by_their_time() {
    assert_eq!(run_name(1_712_345_678_000), "run_1712345678000");
}

#[test]
fn long_keys_are_shortened_in_lists() {
    let record = RunRecord {
        run_id: "run_1".to_string(),
        asset_key: "x".repeat(39),
        provider: String::new(),
        started_at: 1,
        finished_at: None,
        envelope_json: None,
        summary_json: None,
    };
    assert_eq!(short_key(&record.asset_key), format!("{}...", "x".repeat(35)));
    assert_eq!(short_key(&"y".repeat(38)), "y".repeat(38));
    // 19 characters of two bytes each are 38 bytes, and stay.
    assert_eq!(short_key(&"\u{e9}".repeat(19)), "\u{e9}".repeat(19));
    // 1 + 2 * 19 = 39 bytes; the cut after 35 bytes leaves 18 characters.
    let long = format!("a{}", "\u{e9}".repeat(19));
    assert_eq!(short_key(&long), format!("a{}...", "\u{e9}".repeat(17)));
    assert_eq!(short_key(&long).len(), 38);
}
