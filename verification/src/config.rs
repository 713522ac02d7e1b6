//! Configuration: a file, overridden by the environment, overridden by flags.

use crate::text;
use crate::transport::{ProtocolMode, Sink};
use vstd::prelude::*;

verus! {

/// The number of prefetch workers. A configuration cannot change it.
pub const FIXED_PREFETCH_WORKERS: u32 = 1;

/// Top-level configuration.
#[derive(Debug, Clone)]
pub struct Config {
    pub providers: ProvidersConfig,
    pub defaults: DefaultsConfig,
    pub output: OutputConfig,
}

/// The providers that are configured.
#[derive(Debug, Clone)]
pub struct ProvidersConfig {
    pub realdebrid: Option<ProviderEntry>,
    pub premiumize: Option<ProviderEntry>,
}

/// What is configured of a provider.
#[derive(Debug, Clone)]
pub struct ProviderEntry {
    pub api_key: String,
}

/// Default parameters of a benchmark.
#[derive(Debug, Clone, Copy, PartialEq, Eq)]
pub struct DefaultsConfig {
    pub chunk_size_mb: u32,
    pub prefetch_chunk_size_mb: u32,
    pub page_size_kb: u32,
    pub urgent_workers: u32,
    pub protocol: ProtocolMode,
    pub sink: Sink,
}

/// Where output goes.
#[derive(Debug, Clone)]
pub struct OutputConfig {
    pub trace_dir: String,
    pub db_path: String,
}

/// What a configuration file says of a provider.
#[derive(Debug, Clone)]
pub struct FileProvider {
    pub api_key: Option<String>,
}

/// What a configuration file says; it may leave out any of it.
#[derive(Debug, Clone)]
pub struct ConfigFile {
    pub realdebrid: Option<FileProvider>,
    pub premiumize: Option<FileProvider>,
    pub chunk_size_mb: Option<u32>,
    pub prefetch_chunk_size_mb: Option<u32>,
    pub page_size_kb: Option<u32>,
    pub urgent_workers: Option<u32>,
    pub protocol: Option<ProtocolMode>,
    pub sink: Option<Sink>,
    pub trace_dir: Option<String>,
    pub db_path: Option<String>,
}

/// Why a configuration could not be loaded.
#[derive(Debug, Clone)]
pub enum ConfigError {
    Io(String),
    Parse(String),
}

/// What reading the configuration file came to.
#[derive(Debug, Clone)]
pub enum ConfigSource {
    /// There is no such file.
    Missing,
    /// The file cannot be read.
    Unreadable(String),
    /// The file does not hold a configuration.
    Malformed(String),
    /// The configuration that the file holds.
    Parsed(Config),
}

impl ConfigError {
    /// What the error says.
    pub fn message(&self) -> (res: String)
        ensures
            res@ == match *self {
                ConfigError::Io(m) => "I/O error: "@ + m@,
                ConfigError::Parse(m) => "parse error: "@ + m@,
            },
    {
        match self {
            ConfigError::Io(m) => text::join("I/O error: ", m.as_str()),
            ConfigError::Parse(m) => text::join("parse error: ", m.as_str()),
        }
    }
}

/// The size of urgent chunks in megabytes where nothing is configured.
pub fn default_chunk_size_mb() -> (res: u32)
    ensures
        res == 4,
{
    4
}

/// The size of prefetch chunks in megabytes where nothing is configured.
pub fn default_prefetch_chunk_size_mb() -> (res: u32)
    ensures
        res == 8,
{
    8
}

/// The size of pages in kilobytes where nothing is configured.
pub fn default_page_size_kb() -> (res: u32)
    ensures
        res == 128,
{
    128
}

/// The number of urgent workers where nothing is configured.
pub fn default_urgent_workers() -> (res: u32)
    ensures
        res == 2,
{
    2
}

/// The directory for traces where nothing is configured.
pub fn default_trace_dir() -> (res: String)
    ensures
        res@ == "./traces"@,
{
    "./traces".to_owned()
}

/// The path of the database where nothing is configured.
pub fn default_db_path() -> (res: String)
    ensures
        res@ == "./frontier.db"@,
{
    "./frontier.db".to_owned()
}

/// The parameters where nothing is configured.
pub open spec fn standard_defaults() -> DefaultsConfig {
    DefaultsConfig {
        chunk_size_mb: 4,
        prefetch_chunk_size_mb: 8,
        page_size_kb: 128,
        urgent_workers: 2,
        protocol: ProtocolMode::Auto,
        sink: Sink::Discard,
    }
}

impl Default for ProvidersConfig {
    fn default() -> (res: Self)
        ensures
            res.realdebrid is None,
            res.premiumize is None,
    {
        Self { realdebrid: None, premiumize: None }
    }
}

impl Default for DefaultsConfig {
    fn default() -> (res: Self)
        ensures
            res == standard_defaults(),
    {
        Self {
            chunk_size_mb: default_chunk_size_mb(),
            prefetch_chunk_size_mb: default_prefetch_chunk_size_mb(),
            page_size_kb: default_page_size_kb(),
            urgent_workers: default_urgent_workers(),
            protocol: ProtocolMode::default(),
            sink: Sink::default(),
        }
    }
}

impl Default for OutputConfig {
    fn default() -> (res: Self)
        ensures
            res.trace_dir@ == "./traces"@,
            res.db_path@ == "./frontier.db"@,
    {
        Self { trace_dir: default_trace_dir(), db_path: default_db_path() }
    }
}

/// What is configured of a provider, where a key from the environment goes first.
pub open spec fn with_key(entry: Option<ProviderEntry>, key: Option<String>) -> Option<
    ProviderEntry,
> {
    match key {
        Some(api_key) => Some(ProviderEntry { api_key }),
        None => entry,
    }
}

/// A configuration with the keys from the environment.
pub open spec fn with_keys(
    config: Config,
    realdebrid_key: Option<String>,
    premiumize_key: Option<String>,
) -> Config {
    Config {
        providers: ProvidersConfig {
            realdebrid: with_key(config.providers.realdebrid, realdebrid_key),
            premiumize: with_key(config.providers.premiumize, premiumize_key),
        },
        ..config
    }
}

/// The configuration that holds where there is no file.
pub open spec fn is_standard(config: Config) -> bool {
    &&& config.providers.realdebrid is None
    &&& config.providers.premiumize is None
    &&& config.defaults == standard_defaults()
    &&& config.output.trace_dir@ == "./traces"@
    &&& config.output.db_path@ == "./frontier.db"@
}

/// A value, or the one that holds where there is none.
pub open spec fn or_standard<T>(value: Option<T>, standard: T) -> T {
    match value {
        Some(v) => v,
        None => standard,
    }
}

/// The text in an option, or the one that holds where there is none.
pub open spec fn text_or(value: Option<String>, standard: Seq<char>) -> Seq<char> {
    match value {
        Some(s) => s@,
        None => standard,
    }
}

/// A provider is configured as a file says. A key that is left out is empty.
pub open spec fn is_entry(entry: Option<ProviderEntry>, file: Option<FileProvider>) -> bool {
    match file {
        Some(p) => entry matches Some(e) && e.api_key@ == text_or(p.api_key, Seq::empty()),
        None => entry is None,
    }
}

/// A configuration is the one that a file says. What the file leaves out is
/// standard.
pub open spec fn is_from_file(config: Config, file: ConfigFile) -> bool {
    let standard = standard_defaults();
    &&& is_entry(config.providers.realdebrid, file.realdebrid)
    &&& is_entry(config.providers.premiumize, file.premiumize)
    &&& config.defaults == (DefaultsConfig {
        chunk_size_mb: or_standard(file.chunk_size_mb, standard.chunk_size_mb),
        prefetch_chunk_size_mb: or_standard(
            file.prefetch_chunk_size_mb,
            standard.prefetch_chunk_size_mb,
        ),
        page_size_kb: or_standard(file.page_size_kb, standard.page_size_kb),
        urgent_workers: or_standard(file.urgent_workers, standard.urgent_workers),
        protocol: or_standard(file.protocol, standard.protocol),
        sink: or_standard(file.sink, standard.sink),
    })
    &&& config.output.trace_dir@ == text_or(file.trace_dir, "./traces"@)
    &&& config.output.db_path@ == text_or(file.db_path, "./frontier.db"@)
}

/// What is configured of a provider by what a file says of it.
fn entry_from(file: Option<FileProvider>) -> (res: Option<ProviderEntry>)
    ensures
        is_entry(res, file),
{
    match file {
        Some(p) => match p.api_key {
            Some(api_key) => Some(ProviderEntry { api_key }),
            None => Some(ProviderEntry { api_key: String::new() }),
        },
        None => None,
    }
}

/// A number from a file, or the one that holds where the file leaves it out.
fn number_or(value: Option<u32>, standard: u32) -> (res: u32)
    ensures
        res == or_standard(value, standard),
{
    match value {
        Some(v) => v,
        None => standard,
    }
}

impl Config {
    /// The configuration that a file says. What the file leaves out is standard.
    pub fn from_file(file: ConfigFile) -> (res: Self)
        ensures
            is_from_file(res, file),
    {
        Config {
            providers: ProvidersConfig {
                realdebrid: entry_from(file.realdebrid),
                premiumize: entry_from(file.premiumize),
            },
            defaults: DefaultsConfig {
                chunk_size_mb: number_or(file.chunk_size_mb, default_chunk_size_mb()),
                prefetch_chunk_size_mb: number_or(
                    file.prefetch_chunk_size_mb,
                    default_prefetch_chunk_size_mb(),
                ),
                page_size_kb: number_or(file.page_size_kb, default_page_size_kb()),
                urgent_workers: number_or(file.urgent_workers, default_urgent_workers()),
                protocol: match file.protocol {
                    Some(protocol) => protocol,
                    None => ProtocolMode::default(),
                },
                sink: match file.sink {
                    Some(sink) => sink,
                    None => Sink::default(),
                },
            },
            output: OutputConfig {
                trace_dir: match file.trace_dir {
                    Some(trace_dir) => trace_dir,
                    None => default_trace_dir(),
                },
                db_path: match file.db_path {
                    Some(db_path) => db_path,
                    None => default_db_path(),
                },
            },
        }
    }

    /// The configuration from a file and from the environment: keys from the
    /// environment take precedence, and without a file the standard
    /// configuration holds.
    pub fn load(
        source: ConfigSource,
        realdebrid_key: Option<String>,
        premiumize_key: Option<String>,
    ) -> (res: Result<Self, ConfigError>)
        ensures
            match source {
                ConfigSource::Missing => res matches Ok(config) && exists|standard: Config|
                    #[trigger] is_standard(standard) && config == with_keys(
                        standard,
                        realdebrid_key,
                        premiumize_key,
                    ),
                ConfigSource::Unreadable(m) => res == Err::<Config, ConfigError>(
                    ConfigError::Io(m),
                ),
                ConfigSource::Malformed(m) => res == Err::<Config, ConfigError>(
                    ConfigError::Parse(m),
                ),
                ConfigSource::Parsed(config) => res == Ok::<Config, ConfigError>(
                    with_keys(config, realdebrid_key, premiumize_key),
                ),
            },
    {
        let mut config = match source {
            ConfigSource::Missing => Config {
                providers: ProvidersConfig::default(),
                defaults: DefaultsConfig::default(),
                output: OutputConfig::default(),
            },
            ConfigSource::Unreadable(m) => {
                return Err(ConfigError::Io(m));
            },
            ConfigSource::Malformed(m) => {
                return Err(ConfigError::Parse(m));
            },
            ConfigSource::Parsed(config) => config,
        };
        let ghost read = config;
        assert(source is Missing ==> is_standard(read));
        if let Some(api_key) = realdebrid_key {
            config.providers.realdebrid = Some(ProviderEntry { api_key });
        }
        if let Some(api_key) = premiumize_key {
            config.providers.premiumize = Some(ProviderEntry { api_key });
        }
        assert(config == with_keys(read, realdebrid_key, premiumize_key));
        Ok(config)
    }
}

/// A file that says nothing gives the configuration that holds without a file.
pub proof fn empty_file_is_standard(config: Config, file: ConfigFile)
    requires
        is_from_file(config, file),
        file.realdebrid is None,
        file.premiumize is None,
        file.chunk_size_mb is None,
        file.prefetch_chunk_size_mb is None,
        file.page_size_kb is None,
        file.urgent_workers is None,
        file.protocol is None,
        file.sink is None,
        file.trace_dir is None,
        file.db_path is None,
    ensures
        is_standard(config),
{
}

/// Keys from the environment change nothing but the providers that they are for.
pub proof fn keys_change_providers_only(
    config: Config,
    realdebrid_key: Option<String>,
    premiumize_key: Option<String>,
)
    ensures
        with_keys(config, realdebrid_key, premiumize_key).defaults == config.defaults,
        with_keys(config, realdebrid_key, premiumize_key).output == config.output,
        with_keys(config, None, None) == config,
        realdebrid_key is None ==> with_keys(
            config,
            realdebrid_key,
            premiumize_key,
        ).providers.realdebrid == config.providers.realdebrid,
        premiumize_key is None ==> with_keys(
            config,
            realdebrid_key,
            premiumize_key,
        ).providers.premiumize == config.providers.premiumize,
{
}

/// The configuration that holds without a file: no provider, chunks of four and
/// eight megabytes, pages of 128 kilobytes, two urgent workers, and output in the
/// current directory.
pub proof fn standard_is_as_documented(config: Config)
    requires
        is_standard(config),
    ensures
        config.providers.realdebrid is None,
        config.providers.premiumize is None,
        config.defaults.chunk_size_mb == 4,
        config.defaults.prefetch_chunk_size_mb == 8,
        config.defaults.page_size_kb == 128,
        config.defaults.urgent_workers == 2,
        config.defaults.protocol == ProtocolMode::Auto,
        config.defaults.sink == Sink::Discard,
        config.output.trace_dir@ == "./traces"@,
        config.output.db_path@ == "./frontier.db"@,
{
}

/// A key from the environment is the key of its provider, whether or not the file
/// has one, and no other.
pub proof fn environment_goes_before_file(
    config: Config,
    realdebrid_key: Option<String>,
    premiumize_key: Option<String>,
)
    ensures
        ({
            let providers = with_keys(config, realdebrid_key, premiumize_key).providers;
            &&& realdebrid_key matches Some(key) ==> (providers.realdebrid matches Some(e)
                && e.api_key == key)
            &&& premiumize_key matches Some(key) ==> (providers.premiumize matches Some(e)
                && e.api_key == key)
            &&& realdebrid_key is None ==> providers.realdebrid == config.providers.realdebrid
            &&& premiumize_key is None ==> providers.premiumize == config.providers.premiumize
        }),
{
}

/// What a file says is configured, each value in its place, and what it leaves out
/// is standard.
pub proof fn file_goes_before_standard(config: Config, file: ConfigFile)
    requires
        is_from_file(config, file),
    ensures
        file.realdebrid matches Some(p) ==> (config.providers.realdebrid matches Some(e) && (
        p.api_key matches Some(key) ==> e.api_key@ == key@) && (p.api_key is None
            ==> e.api_key@.len() == 0)),
        file.premiumize matches Some(p) ==> (config.providers.premiumize matches Some(e) && (
        p.api_key matches Some(key) ==> e.api_key@ == key@) && (p.api_key is None
            ==> e.api_key@.len() == 0)),
        file.chunk_size_mb matches Some(n) ==> config.defaults.chunk_size_mb == n,
        file.chunk_size_mb is None ==> config.defaults.chunk_size_mb == 4,
        file.prefetch_chunk_size_mb matches Some(n) ==> config.defaults.prefetch_chunk_size_mb == n,
        file.prefetch_chunk_size_mb is None ==> config.defaults.prefetch_chunk_size_mb == 8,
        file.page_size_kb matches Some(n) ==> config.defaults.page_size_kb == n,
        file.page_size_kb is None ==> config.defaults.page_size_kb == 128,
        file.urgent_workers matches Some(n) ==> config.defaults.urgent_workers == n,
        file.urgent_workers is None ==> config.defaults.urgent_workers == 2,
        file.protocol matches Some(p) ==> config.defaults.protocol == p,
        file.protocol is None ==> config.defaults.protocol == ProtocolMode::Auto,
        file.sink matches Some(s) ==> config.defaults.sink == s,
        file.sink is None ==> config.defaults.sink == Sink::Discard,
        file.trace_dir matches Some(s) ==> config.output.trace_dir@ == s@,
        file.trace_dir is None ==> config.output.trace_dir@ == "./traces"@,
        file.db_path matches Some(s) ==> config.output.db_path@ == s@,
        file.db_path is None ==> config.output.db_path@ == "./frontier.db"@,
{
}

} // verus!
