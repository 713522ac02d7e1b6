//! What a command line asks for: targets, providers, sizes and chunks.

use crate::config::{Config, ProviderEntry, FIXED_PREFETCH_WORKERS};
use crate::events::Lane;
use crate::provider;
use crate::reactor::ChunkRequest;
use crate::retry::MAX_ATTEMPTS;
use crate::text;
use vstd::prelude::*;

verus! {

/// No plan has more chunks than this.
pub const MAX_CHUNKS: usize = 10_000;

/// Bytes in a megabyte.
pub const BYTES_PER_MB: u64 = 1_048_576;

/// Bytes in a kilobyte.
pub const BYTES_PER_KB: u64 = 1_024;

/// The length of a range whose end is not given.
pub const DEFAULT_RANGE_BYTES: u64 = 4_194_304;

// ---------------------------------------------------------------------------
// Settings
// ---------------------------------------------------------------------------

/// The flags of a benchmark that override the configuration.
#[derive(Debug, Clone, Copy, PartialEq, Eq)]
pub struct BenchmarkFlags {
    pub chunk_size_mb: Option<u32>,
    pub prefetch_chunk_size_mb: Option<u32>,
    pub workers: Option<u32>,
}

/// The settings of a benchmark.
#[derive(Debug, Clone, Copy, PartialEq, Eq)]
pub struct BenchmarkSettings {
    pub chunk_size_mb: u32,
    pub prefetch_chunk_size_mb: u32,
    pub page_size_kb: u32,
    pub urgent_workers: u32,
    pub prefetch_workers: u32,
    /// The size of urgent chunks in bytes.
    pub chunk_size: u64,
    /// The size of prefetch chunks in bytes.
    pub prefetch_chunk_size: u64,
    /// The size of pages in bytes.
    pub page_size: u64,
}

/// A flag, or what is configured where it is not given.
pub open spec fn flag_or(flag: Option<u32>, configured: u32) -> u32 {
    match flag {
        Some(value) => value,
        None => configured,
    }
}

/// The settings that flags and configuration come to.
pub open spec fn settings_of(flags: BenchmarkFlags, config: Config) -> BenchmarkSettings {
    let chunk_size_mb = flag_or(flags.chunk_size_mb, config.defaults.chunk_size_mb);
    let prefetch_chunk_size_mb = flag_or(
        flags.prefetch_chunk_size_mb,
        config.defaults.prefetch_chunk_size_mb,
    );
    BenchmarkSettings {
        chunk_size_mb,
        prefetch_chunk_size_mb,
        page_size_kb: config.defaults.page_size_kb,
        urgent_workers: flag_or(flags.workers, config.defaults.urgent_workers),
        prefetch_workers: FIXED_PREFETCH_WORKERS,
        chunk_size: (chunk_size_mb * BYTES_PER_MB) as u64,
        prefetch_chunk_size: (prefetch_chunk_size_mb * BYTES_PER_MB) as u64,
        page_size: (config.defaults.page_size_kb * BYTES_PER_KB) as u64,
    }
}

/// A flag, or what is configured where it is not given.
fn flag_or_configured(flag: Option<u32>, configured: u32) -> (res: u32)
    ensures
        res == flag_or(flag, configured),
{
    match flag {
        Some(value) => value,
        None => configured,
    }
}

/// A number of kilobytes in bytes.
pub fn kilobytes(kb: u32) -> (res: u64)
    ensures
        res == kb * BYTES_PER_KB,
        res == kb * 1_024,
{
    kb as u64 * 1_024
}

/// The settings that flags and configuration come to: flags go first, and the
/// number of prefetch workers is fixed.
pub fn benchmark_settings(flags: &BenchmarkFlags, config: &Config) -> (res: BenchmarkSettings)
    ensures
        res == settings_of(*flags, *config),
{
    let chunk_size_mb = flag_or_configured(flags.chunk_size_mb, config.defaults.chunk_size_mb);
    let prefetch_chunk_size_mb = flag_or_configured(
        flags.prefetch_chunk_size_mb,
        config.defaults.prefetch_chunk_size_mb,
    );
    BenchmarkSettings {
        chunk_size_mb,
        prefetch_chunk_size_mb,
        page_size_kb: config.defaults.page_size_kb,
        urgent_workers: flag_or_configured(flags.workers, config.defaults.urgent_workers),
        prefetch_workers: FIXED_PREFETCH_WORKERS,
        chunk_size: chunk_size_mb as u64 * 1_048_576,
        prefetch_chunk_size: prefetch_chunk_size_mb as u64 * 1_048_576,
        page_size: kilobytes(config.defaults.page_size_kb),
    }
}

/// The name of a run that began at a time.
pub fn run_name(started_at_ms: u64) -> (res: String)
    ensures
        res@ == "run_"@ + text::decimal(started_at_ms as nat),
{
    let digits = text::decimal_text(started_at_ms);
    text::join("run_", digits.as_str())
}

// ---------------------------------------------------------------------------
// Chunks
// ---------------------------------------------------------------------------

/// How much of a file to download: all of it, or no more than `max_bytes` where
/// that is not zero. A file of unknown length may have any length.
pub open spec fn size_to_download(content_length: Option<u64>, max_bytes: u64) -> u64 {
    let file_size = match content_length {
        Some(n) => n,
        None => u64::MAX,
    };
    if 0 < max_bytes < file_size {
        max_bytes
    } else {
        file_size
    }
}

/// How much of a file to download.
pub fn download_size(content_length: Option<u64>, max_bytes: u64) -> (res: u64)
    ensures
        res == size_to_download(content_length, max_bytes),
{
    let file_size: u64 = match content_length {
        Some(n) => n,
        None => u64::MAX,
    };
    if max_bytes > 0 && max_bytes < file_size {
        max_bytes
    } else {
        file_size
    }
}

/// The lane of a chunk: the first one and those that begin within the first two
/// urgent chunk lengths are urgent.
pub open spec fn lane_of(offset: int, index: nat, chunk_size: u64) -> Lane {
    if index == 0 || offset < chunk_size * 2 {
        Lane::Urgent
    } else {
        Lane::Prefetch
    }
}

/// The chunk number `index`, which begins at `offset`. Each lane has its own
/// chunk length, and the last chunk ends with the download.
pub open spec fn chunk_at(
    offset: int,
    index: nat,
    size: u64,
    chunk_size: u64,
    prefetch_chunk_size: u64,
) -> ChunkRequest {
    let lane = lane_of(offset, index, chunk_size);
    let length = if lane == Lane::Urgent {
        chunk_size
    } else {
        prefetch_chunk_size
    };
    ChunkRequest {
        chunk_id: index as u64,
        range_start: offset as u64,
        range_end: if offset + length < size {
            (offset + length - 1) as u64
        } else {
            (size - 1) as u64
        },
        lane,
    }
}

/// The chunks from number `index` on, the first of which begins at `offset`.
pub open spec fn plan_from(
    offset: int,
    index: nat,
    size: u64,
    chunk_size: u64,
    prefetch_chunk_size: u64,
) -> Seq<ChunkRequest>
    decreases MAX_CHUNKS - index,
{
    if offset < size && index < MAX_CHUNKS {
        let chunk = chunk_at(offset, index, size, chunk_size, prefetch_chunk_size);
        seq![chunk] + plan_from(
            chunk.range_end + 1,
            index + 1,
            size,
            chunk_size,
            prefetch_chunk_size,
        )
    } else {
        Seq::empty()
    }
}

/// The chunks of a download of `size` bytes.
pub open spec fn plan_of(size: u64, chunk_size: u64, prefetch_chunk_size: u64) -> Seq<
    ChunkRequest,
> {
    plan_from(0, 0, size, chunk_size, prefetch_chunk_size)
}

/// The chunks of a download of `size` bytes.
pub fn plan_chunks(size: u64, chunk_size: u64, prefetch_chunk_size: u64) -> (res: Vec<
    ChunkRequest,
>)
    requires
        chunk_size > 0,
        prefetch_chunk_size > 0,
    ensures
        res@ == plan_of(size, chunk_size, prefetch_chunk_size),
{
    let mut chunks: Vec<ChunkRequest> = Vec::new();
    let mut offset: u64 = 0;
    let ghost whole = plan_of(size, chunk_size, prefetch_chunk_size);
    assert(chunks@ + whole =~= whole);
    while offset < size && chunks.len() < MAX_CHUNKS
        invariant
            chunk_size > 0,
            prefetch_chunk_size > 0,
            offset <= size,
            chunks@.len() <= MAX_CHUNKS,
            whole == chunks@ + plan_from(
                offset as int,
                chunks@.len(),
                size,
                chunk_size,
                prefetch_chunk_size,
            ),
        decreases MAX_CHUNKS - chunks@.len(),
    {
        let lane = if chunks.len() == 0 || offset / 2 < chunk_size {
            Lane::Urgent
        } else {
            Lane::Prefetch
        };
        let length: u64 = match lane {
            Lane::Urgent => chunk_size,
            Lane::Prefetch => prefetch_chunk_size,
        };
        let end: u64 = if length < size - offset {
            offset + length - 1
        } else {
            size - 1
        };
        let chunk = ChunkRequest {
            chunk_id: chunks.len() as u64,
            range_start: offset,
            range_end: end,
            lane,
        };
        assert(chunk == chunk_at(
            offset as int,
            chunks@.len(),
            size,
            chunk_size,
            prefetch_chunk_size,
        ));
        let ghost before = chunks@;
        chunks.push(chunk);
        offset = end + 1;
        proof {
            let rest = plan_from(
                offset as int,
                chunks@.len(),
                size,
                chunk_size,
                prefetch_chunk_size,
            );
            assert(before + (seq![chunk] + rest) =~= chunks@ + rest);
        }
    }
    assert(chunks@ + Seq::empty() =~= chunks@);
    chunks
}

/// The end of a range that is not given: it holds four megabytes.
pub fn default_range_end(range_start: u64) -> (res: u64)
    requires
        range_start + DEFAULT_RANGE_BYTES <= u64::MAX,
    ensures
        res == range_start + DEFAULT_RANGE_BYTES - 1,
        res - range_start + 1 == 4 * 1_048_576,
{
    range_start + DEFAULT_RANGE_BYTES - 1
}

proof fn lemma_plan_from(
    offset: int,
    index: nat,
    size: u64,
    chunk_size: u64,
    prefetch_chunk_size: u64,
)
    requires
        chunk_size > 0,
        prefetch_chunk_size > 0,
        0 <= offset <= size,
    ensures
        ({
            let plan = plan_from(offset, index, size, chunk_size, prefetch_chunk_size);
            &&& index <= MAX_CHUNKS ==> index + plan.len() <= MAX_CHUNKS
            &&& plan.len() > 0 ==> plan[0].range_start == offset
            &&& forall|i: int|
                0 <= i < plan.len() ==> {
                    &&& (#[trigger] plan[i]).range_start <= plan[i].range_end < size
                    &&& plan[i].chunk_id == index + i
                    &&& plan[i] == chunk_at(
                        plan[i].range_start as int,
                        index + i as nat,
                        size,
                        chunk_size,
                        prefetch_chunk_size,
                    )
                }
            &&& forall|i: int, j: int|
                0 <= i && j == i + 1 && j < plan.len() ==> (#[trigger] plan[j]).range_start == (
                #[trigger] plan[i]).range_end + 1
            &&& index + plan.len() < MAX_CHUNKS && plan.len() > 0 ==> plan.last().range_end
                == size - 1
            &&& index + plan.len() < MAX_CHUNKS && plan.len() == 0 ==> offset == size
        }),
    decreases MAX_CHUNKS - index,
{
    if offset < size && index < MAX_CHUNKS {
        let chunk = chunk_at(offset, index, size, chunk_size, prefetch_chunk_size);
        let next = chunk.range_end + 1;
        lemma_plan_from(next, index + 1, size, chunk_size, prefetch_chunk_size);
        let rest = plan_from(next, index + 1, size, chunk_size, prefetch_chunk_size);
        let plan = plan_from(offset, index, size, chunk_size, prefetch_chunk_size);
        assert(plan == seq![chunk] + rest);
        assert forall|i: int| 0 <= i < plan.len() implies {
            &&& (#[trigger] plan[i]).range_start <= plan[i].range_end < size
            &&& plan[i].chunk_id == index + i
            &&& plan[i] == chunk_at(
                plan[i].range_start as int,
                index + i as nat,
                size,
                chunk_size,
                prefetch_chunk_size,
            )
        } by {
            if i > 0 {
                assert(plan[i] == rest[i - 1]);
            }
        }
        assert forall|i: int, j: int| 0 <= i && j == i + 1 && j < plan.len() implies (
        #[trigger] plan[j]).range_start == (#[trigger] plan[i]).range_end + 1 by {
            if i > 0 {
                assert(plan[i] == rest[i - 1]);
                assert(plan[j] == rest[j - 1]);
            } else {
                assert(plan[j] == rest[0]);
            }
        }
        if rest.len() > 0 {
            assert(plan.last() == rest.last());
        }
    }
}

/// A plan covers the download from its start without gaps or overlaps, in the
/// order of its chunk numbers. It covers all of it unless it has as many chunks
/// as a plan can have.
pub proof fn plan_covers_download(size: u64, chunk_size: u64, prefetch_chunk_size: u64)
    requires
        chunk_size > 0,
        prefetch_chunk_size > 0,
    ensures
        ({
            let plan = plan_of(size, chunk_size, prefetch_chunk_size);
            &&& plan.len() > 0 <==> size > 0
            &&& plan.len() > 0 ==> plan[0].range_start == 0
            &&& forall|i: int|
                0 <= i < plan.len() ==> {
                    &&& (#[trigger] plan[i]).range_start <= plan[i].range_end < size
                    &&& plan[i].chunk_id == i
                }
            &&& forall|i: int, j: int|
                0 <= i && j == i + 1 && j < plan.len() ==> (#[trigger] plan[j]).range_start == (
                #[trigger] plan[i]).range_end + 1
            &&& 0 < plan.len() < MAX_CHUNKS ==> plan.last().range_end == size - 1
        }),
{
    lemma_plan_from(0, 0, size, chunk_size, prefetch_chunk_size);
}

/// A chunk is urgent if and only if it is the first one or begins within the
/// first two urgent chunk lengths, and no chunk is longer than those of its lane.
pub proof fn plan_follows_lanes(size: u64, chunk_size: u64, prefetch_chunk_size: u64, i: int)
    requires
        chunk_size > 0,
        prefetch_chunk_size > 0,
        0 <= i < plan_of(size, chunk_size, prefetch_chunk_size).len(),
    ensures
        ({
            let chunk = plan_of(size, chunk_size, prefetch_chunk_size)[i];
            &&& chunk.lane == Lane::Urgent <==> i == 0 || chunk.range_start < chunk_size * 2
            &&& chunk.range_end - chunk.range_start + 1 <= if chunk.lane == Lane::Urgent {
                chunk_size
            } else {
                prefetch_chunk_size
            }
        }),
{
    lemma_plan_from(0, 0, size, chunk_size, prefetch_chunk_size);
    let chunk = plan_of(size, chunk_size, prefetch_chunk_size)[i];
    assert(chunk == chunk_at(
        chunk.range_start as int,
        i as nat,
        size,
        chunk_size,
        prefetch_chunk_size,
    ));
}

/// Every plan can be handed to a reactor: its ranges are not empty, and their
/// number leaves room for all attempts.
pub proof fn plan_fits_reactor(size: u64, chunk_size: u64, prefetch_chunk_size: u64)
    requires
        chunk_size > 0,
        prefetch_chunk_size > 0,
    ensures
        ({
            let plan = plan_of(size, chunk_size, prefetch_chunk_size);
            &&& MAX_ATTEMPTS * plan.len() <= u32::MAX
            &&& forall|i: int|
                0 <= i < plan.len() ==> (#[trigger] plan[i]).range_start <= plan[i].range_end
        }),
{
    lemma_plan_from(0, 0, size, chunk_size, prefetch_chunk_size);
}

// ---------------------------------------------------------------------------
// Targets and providers
// ---------------------------------------------------------------------------

/// What a target on the command line is.
#[derive(Debug, Clone)]
pub enum Target {
    /// A URL to use as it is.
    Url,
    /// An asset key of the named provider.
    Asset(String),
    /// Neither.
    Invalid,
}

/// A text is a URL.
pub open spec fn is_url(target: Seq<char>) -> bool {
    "http://"@.is_prefix_of(target) || "https://"@.is_prefix_of(target)
}

/// What a target is: a URL by its scheme, and otherwise an asset key where it
/// has a colon; the provider stands before the first one.
pub fn parse_target(target: &str) -> (res: Target)
    ensures
        match res {
            Target::Url => is_url(target@),
            Target::Asset(provider) => !is_url(target@) && (text::split_at_first(
                target@,
                ':',
            ) matches Some((name, rest)) && name == provider@),
            Target::Invalid => !is_url(target@) && text::split_at_first(target@, ':') is None,
        },
{
    if text::starts_with(target, "http://") || text::starts_with(target, "https://") {
        return Target::Url;
    }
    match text::split_once(target, ':') {
        Some((provider, _rest)) => Target::Asset(provider),
        None => Target::Invalid,
    }
}

/// The known providers.
#[derive(Debug, Clone, Copy, PartialEq, Eq, Structural)]
pub enum ProviderKind {
    RealDebrid,
    Premiumize,
}

/// A provider with its key.
#[derive(Debug, Clone)]
pub struct ConfiguredProvider {
    pub kind: ProviderKind,
    pub api_key: String,
}

/// A filter lets a name through.
pub open spec fn passes(filter: Option<Seq<char>>, name: Seq<char>) -> bool {
    filter is None || filter == Some(name)
}

/// The key of a provider that is to be used: one that the filter lets through
/// and that is not empty.
pub open spec fn usable_key(
    entry: Option<ProviderEntry>,
    filter: Option<Seq<char>>,
    name: Seq<char>,
) -> Option<Seq<char>> {
    match entry {
        Some(e) => if passes(filter, name) && e.api_key@.len() > 0 {
            Some(e.api_key@)
        } else {
            None
        },
        None => None,
    }
}

/// The providers to use, with their keys, in order.
pub open spec fn providers_of(config: Config, filter: Option<Seq<char>>) -> Seq<
    (ProviderKind, Seq<char>),
> {
    let first = match usable_key(config.providers.realdebrid, filter, "realdebrid"@) {
        Some(key) => seq![(ProviderKind::RealDebrid, key)],
        None => Seq::empty(),
    };
    match usable_key(config.providers.premiumize, filter, "premiumize"@) {
        Some(key) => first.push((ProviderKind::Premiumize, key)),
        None => first,
    }
}

/// The views of a list of providers.
pub open spec fn provider_views(providers: Seq<ConfiguredProvider>) -> Seq<
    (ProviderKind, Seq<char>),
> {
    providers.map_values(|p: ConfiguredProvider| (p.kind, p.api_key@))
}

/// Whether a filter lets a name through.
fn filter_passes(filter: Option<&str>, name: &str) -> (res: bool)
    ensures
        res == passes(provider::str_option(filter), name@),
{
    match filter {
        Some(wanted) => text::same_text(wanted, name),
        None => true,
    }
}

/// The providers to use: those that are configured with a key, as far as the
/// filter lets them through.
pub fn build_providers(config: &Config, filter: Option<&str>) -> (res: Vec<ConfiguredProvider>)
    ensures
        provider_views(res@) == providers_of(*config, provider::str_option(filter)),
{
    let mut providers: Vec<ConfiguredProvider> = Vec::new();
    if filter_passes(filter, "realdebrid") {
        if let Some(entry) = &config.providers.realdebrid {
            if !entry.api_key.as_str().is_empty() {
                providers.push(
                    ConfiguredProvider {
                        kind: ProviderKind::RealDebrid,
                        api_key: entry.api_key.clone(),
                    },
                );
            }
        }
    }
    if filter_passes(filter, "premiumize") {
        if let Some(entry) = &config.providers.premiumize {
            if !entry.api_key.as_str().is_empty() {
                providers.push(
                    ConfiguredProvider {
                        kind: ProviderKind::Premiumize,
                        api_key: entry.api_key.clone(),
                    },
                );
            }
        }
    }
    assert(provider_views(providers@) =~= providers_of(*config, provider::str_option(filter)));
    providers
}

/// The text of a key names the provider that the key is of.
pub proof fn key_text_names_provider(key: provider::KeyView)
    requires
        provider::no_colon(key.provider),
    ensures
        text::split_at_first(provider::canonical_text(key), ':') matches Some((name, rest))
            && name == key.provider,
{
    reveal_strlit(":");
    let whole = provider::canonical_text(key);
    let n = key.provider.len() as int;
    assert(whole[n] == ':');
    assert forall|i: int| 0 <= i < n implies whole[i] != ':' by {
        assert(whole[i] == key.provider[i]);
    }
    lemma_position(whole, n);
    assert(whole.take(n) =~= key.provider);
}

proof fn lemma_position(s: Seq<char>, n: int)
    requires
        0 <= n < s.len(),
        s[n] == ':',
        forall|i: int| 0 <= i < n ==> s[i] != ':',
    ensures
        text::position(s, ':') == n,
    decreases n,
{
    if n > 0 {
        lemma_position(s.drop_first(), n - 1);
    }
}

/// Every chunk of a plan is as long as those of its lane, but for the last one of
/// the download, which ends with it. A plan that does not reach the end has ten
/// thousand chunks.
pub proof fn chunks_have_full_length(size: u64, chunk_size: u64, prefetch_chunk_size: u64, i: int)
    requires
        chunk_size > 0,
        prefetch_chunk_size > 0,
        0 <= i < plan_of(size, chunk_size, prefetch_chunk_size).len(),
    ensures
        ({
            let plan = plan_of(size, chunk_size, prefetch_chunk_size);
            let chunk = plan[i];
            let length = if i == 0 || chunk.range_start < 2 * chunk_size {
                chunk_size
            } else {
                prefetch_chunk_size
            };
            &&& chunk.range_start + length <= size ==> chunk.range_end - chunk.range_start + 1
                == length
            &&& chunk.range_start + length > size ==> chunk.range_end == size - 1
            &&& plan.last().range_end == size - 1 || plan.len() == 10_000
            &&& plan.len() <= 10_000
        }),
{
    lemma_plan_from(0, 0, size, chunk_size, prefetch_chunk_size);
    plan_follows_lanes(size, chunk_size, prefetch_chunk_size, i);
}

/// A download takes all of a file, and no more than a limit that is not zero.
pub proof fn limit_caps_the_download(content_length: Option<u64>, max_bytes: u64)
    ensures
        ({
            let size = size_to_download(content_length, max_bytes);
            &&& content_length matches Some(n) ==> size <= n
            &&& max_bytes > 0 ==> size <= max_bytes
            &&& size == max_bytes && max_bytes > 0 || size == match content_length {
                Some(n) => n,
                None => u64::MAX,
            }
        }),
{
}

/// A flag that is given counts, and otherwise what is configured. There is one
/// prefetch worker. Sizes in bytes are those in megabytes and kilobytes.
pub proof fn flags_go_before_configuration(flags: BenchmarkFlags, config: Config)
    ensures
        ({
            let settings = settings_of(flags, config);
            &&& flags.chunk_size_mb matches Some(n) ==> settings.chunk_size_mb == n
            &&& flags.chunk_size_mb is None ==> settings.chunk_size_mb
                == config.defaults.chunk_size_mb
            &&& flags.prefetch_chunk_size_mb matches Some(n) ==> settings.prefetch_chunk_size_mb
                == n
            &&& flags.prefetch_chunk_size_mb is None ==> settings.prefetch_chunk_size_mb
                == config.defaults.prefetch_chunk_size_mb
            &&& flags.workers matches Some(n) ==> settings.urgent_workers == n
            &&& flags.workers is None ==> settings.urgent_workers == config.defaults.urgent_workers
            &&& settings.prefetch_workers == 1
            &&& settings.page_size_kb == config.defaults.page_size_kb
            &&& settings.chunk_size == settings.chunk_size_mb * 1_048_576
            &&& settings.prefetch_chunk_size == settings.prefetch_chunk_size_mb * 1_048_576
            &&& settings.page_size == settings.page_size_kb * 1_024
        }),
{
}

/// A target with a scheme for the web is a URL, and a URL has one of the two.
pub proof fn urls_have_a_scheme(rest: Seq<char>, target: Seq<char>)
    ensures
        is_url("http://"@ + rest),
        is_url("https://"@ + rest),
        is_url(target) ==> target.take(7) == "http://"@ || target.take(8) == "https://"@,
{
    reveal_strlit("http://");
    reveal_strlit("https://");
    assert("http://"@.is_prefix_of("http://"@ + rest));
    assert("https://"@.is_prefix_of("https://"@ + rest));
    if "http://"@.is_prefix_of(target) {
        assert(target.take(7) =~= "http://"@);
    }
    if "https://"@.is_prefix_of(target) {
        assert(target.take(8) =~= "https://"@);
    }
}

/// A provider is used if and only if it is configured with a key that is not empty
/// and the filter, where there is one, names it. It is used once, with that key,
/// and Real-Debrid comes first.
pub proof fn configured_providers_are_used(config: Config, filter: Option<Seq<char>>)
    ensures
        ({
            let used = providers_of(config, filter);
            let first = config.providers.realdebrid matches Some(e) && e.api_key@.len() > 0 && (
            filter is None || filter == Some("realdebrid"@));
            let second = config.providers.premiumize matches Some(e) && e.api_key@.len() > 0 && (
            filter is None || filter == Some("premiumize"@));
            &&& used.len() == (if first {
                1int
            } else {
                0int
            }) + (if second {
                1int
            } else {
                0int
            })
            &&& first ==> used[0] == (
                ProviderKind::RealDebrid,
                config.providers.realdebrid->0.api_key@,
            )
            &&& second ==> used.last() == (
                ProviderKind::Premiumize,
                config.providers.premiumize->0.api_key@,
            )
        }),
{
}

} // verus!
