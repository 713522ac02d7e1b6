//! What the providers share: assets, errors, file names and the order of
//! candidates.

use crate::stable;
use crate::text;
use vstd::prelude::*;

verus! {

/// Stable identity of an asset, independent of direct URLs that expire.
#[derive(Debug, Clone, PartialEq, Eq, Hash)]
pub struct AssetKey {
    pub provider: String,
    pub item_id: String,
    pub file_index: Option<u32>,
    pub size_bytes: u64,
}

/// An asset key with its texts as sequences of characters.
pub struct KeyView {
    pub provider: Seq<char>,
    pub item_id: Seq<char>,
    pub file_index: Option<u32>,
    pub size_bytes: u64,
}

impl View for AssetKey {
    type V = KeyView;

    open spec fn view(&self) -> KeyView {
        KeyView {
            provider: self.provider@,
            item_id: self.item_id@,
            file_index: self.file_index,
            size_bytes: self.size_bytes,
        }
    }
}

/// The parts of a key with colons between them.
pub open spec fn canonical_text(key: KeyView) -> Seq<char> {
    let size = text::decimal(key.size_bytes as nat);
    let rest = match key.file_index {
        Some(index) => text::decimal(index as nat) + ":"@ + size,
        None => size,
    };
    key.provider + ":"@ + (key.item_id + ":"@ + rest)
}

impl AssetKey {
    /// The key as a text: its parts with colons between them.
    pub fn canonical(&self) -> (res: String)
        ensures
            res@ == canonical_text(self@),
    {
        let mut res = text::join(self.provider.as_str(), ":");
        res.append(self.item_id.as_str());
        res.append(":");
        if let Some(index) = self.file_index {
            let index_text = text::decimal_text(index as u64);
            res.append(index_text.as_str());
            res.append(":");
        }
        let size_text = text::decimal_text(self.size_bytes);
        res.append(size_text.as_str());
        assert(res@ =~= canonical_text(self@));
        res
    }

    /// The same key once more.
    pub fn copy(&self) -> (res: Self)
        ensures
            res@ == self@,
    {
        AssetKey {
            provider: self.provider.clone(),
            item_id: self.item_id.clone(),
            file_index: self.file_index,
            size_bytes: self.size_bytes,
        }
    }
}

/// Reference to a candidate asset.
#[derive(Debug, Clone)]
pub struct AssetRef {
    pub key: AssetKey,
    pub filename: String,
}

/// An asset reference with its texts as sequences of characters.
pub struct AssetView {
    pub key: KeyView,
    pub filename: Seq<char>,
}

impl View for AssetRef {
    type V = AssetView;

    open spec fn view(&self) -> AssetView {
        AssetView { key: self.key@, filename: self.filename@ }
    }
}

/// The views of a list of assets.
pub open spec fn asset_views(assets: Seq<AssetRef>) -> Seq<AssetView> {
    assets.map_values(|a: AssetRef| a@)
}

/// Detailed information about an asset.
#[derive(Debug, Clone)]
pub struct AssetDetails {
    pub key: AssetKey,
    pub filename: String,
    pub mime_type: Option<String>,
}

/// A resolved direct download URL. It may expire.
#[derive(Debug, Clone)]
pub struct ResolvedAsset {
    pub key: AssetKey,
    pub direct_url: String,
    pub filename: String,
    pub size_bytes: u64,
    pub resolved_at_ms: u64,
    pub expiry_hint: Option<u64>,
    /// Further facts from the provider as JSON text.
    pub provider_meta: Option<String>,
}

/// Errors of provider operations.
#[derive(Debug, Clone)]
pub enum ProviderError {
    AuthFailed(String),
    NotFound(String),
    RateLimited { retry_after_secs: u64 },
    Network(String),
    Other(String),
}

/// An error with its texts as sequences of characters.
pub enum ErrorView {
    AuthFailed(Seq<char>),
    NotFound(Seq<char>),
    RateLimited { retry_after_secs: u64 },
    Network(Seq<char>),
    Other(Seq<char>),
}

impl View for ProviderError {
    type V = ErrorView;

    open spec fn view(&self) -> ErrorView {
        match *self {
            ProviderError::AuthFailed(m) => ErrorView::AuthFailed(m@),
            ProviderError::NotFound(m) => ErrorView::NotFound(m@),
            ProviderError::RateLimited { retry_after_secs } => ErrorView::RateLimited {
                retry_after_secs,
            },
            ProviderError::Network(m) => ErrorView::Network(m@),
            ProviderError::Other(m) => ErrorView::Other(m@),
        }
    }
}

/// What an error says.
pub open spec fn error_text(error: ErrorView) -> Seq<char> {
    match error {
        ErrorView::AuthFailed(m) => "authentication failed: "@ + m,
        ErrorView::NotFound(m) => "asset not found: "@ + m,
        ErrorView::RateLimited { retry_after_secs } => "rate limited, retry after "@
            + text::decimal(retry_after_secs as nat) + "s"@,
        ErrorView::Network(m) => "network error: "@ + m,
        ErrorView::Other(m) => "provider error: "@ + m,
    }
}

impl ProviderError {
    /// What the error says.
    pub fn message(&self) -> (res: String)
        ensures
            res@ == error_text(self@),
    {
        match self {
            ProviderError::AuthFailed(m) => text::join("authentication failed: ", m.as_str()),
            ProviderError::NotFound(m) => text::join("asset not found: ", m.as_str()),
            ProviderError::RateLimited { retry_after_secs } => {
                let secs = text::decimal_text(*retry_after_secs);
                let front = text::join("rate limited, retry after ", secs.as_str());
                text::join(front.as_str(), "s")
            },
            ProviderError::Network(m) => text::join("network error: ", m.as_str()),
            ProviderError::Other(m) => text::join("provider error: ", m.as_str()),
        }
    }
}

/// How a call of a provider's API failed.
#[derive(Debug, Clone)]
pub enum CallFailure {
    /// The response has an error status; the text is what the client says of it.
    Status { code: u16, message: String },
    /// There is no response.
    NoResponse(String),
    /// The response is not the JSON that was expected.
    Malformed(String),
}

/// The error for a failed call.
pub open spec fn call_error(failure: CallFailure) -> ErrorView {
    match failure {
        CallFailure::Status { code, message } => if code == 401 || code == 403 {
            ErrorView::AuthFailed("HTTP "@ + text::decimal(code as nat))
        } else if code == 429 {
            ErrorView::RateLimited { retry_after_secs: 60 }
        } else {
            ErrorView::Network("HTTP "@ + text::decimal(code as nat) + ": "@ + message@)
        },
        CallFailure::NoResponse(message) => ErrorView::Network(message@),
        CallFailure::Malformed(message) => ErrorView::Other("JSON parse error: "@ + message@),
    }
}

/// The error for a failed call: a refused or throttled one is told apart from
/// other failures.
pub fn map_call_failure(failure: CallFailure) -> (res: ProviderError)
    ensures
        res@ == call_error(failure),
{
    match failure {
        CallFailure::Status { code, message } => {
            let code_text = text::decimal_text(code as u64);
            let status = text::join("HTTP ", code_text.as_str());
            if code == 401 || code == 403 {
                ProviderError::AuthFailed(status)
            } else if code == 429 {
                ProviderError::RateLimited { retry_after_secs: 60 }
            } else {
                let front = text::join(status.as_str(), ": ");
                ProviderError::Network(text::join(front.as_str(), message.as_str()))
            }
        },
        CallFailure::NoResponse(message) => ProviderError::Network(message),
        CallFailure::Malformed(message) => ProviderError::Other(
            text::join("JSON parse error: ", message.as_str()),
        ),
    }
}

/// How to call a provider's API.
#[derive(Debug, Clone, Copy, PartialEq, Eq, Structural)]
pub enum CallMethod {
    Get,
    PostForm,
}

/// A call of a provider's API.
#[derive(Debug, Clone)]
pub struct ApiCall {
    pub method: CallMethod,
    pub url: String,
    /// Values for the `Authorization` header.
    pub authorization: Option<String>,
    pub query: Vec<(String, String)>,
    pub form: Vec<(String, String)>,
}

// ---------------------------------------------------------------------------
// File names
// ---------------------------------------------------------------------------

/// The last part of a path, without the white space around the path and the
/// slashes at its end.
pub open spec fn file_name(path: Option<Seq<char>>) -> Option<Seq<char>> {
    match path {
        Some(p) => {
            let p = text::trim_end_char(text::trim(p), '/');
            if p.len() == 0 {
                None
            } else {
                Some(text::after_last(p, '/'))
            }
        },
        None => None,
    }
}

/// The view of an optional string slice.
pub open spec fn str_option(s: Option<&str>) -> Option<Seq<char>> {
    match s {
        Some(t) => Some(t@),
        None => None,
    }
}

/// The last part of a path.
pub fn extract_filename(path: Option<&str>) -> (res: Option<String>)
    ensures
        match res {
            Some(name) => file_name(str_option(path)) == Some(name@),
            None => file_name(str_option(path)) is None,
        },
{
    match path {
        Some(p) => {
            let p = text::trimmed(p);
            let p = text::trimmed_end_char(p.as_str(), '/');
            if p.as_str().is_empty() {
                None
            } else {
                Some(text::text_after_last(p.as_str(), '/'))
            }
        },
        None => None,
    }
}

/// A name in lower case ends like that of a video file.
pub open spec fn has_video_extension(name: Seq<char>) -> bool {
    ||| ".mkv"@.is_suffix_of(name)
    ||| ".mp4"@.is_suffix_of(name)
    ||| ".avi"@.is_suffix_of(name)
    ||| ".mov"@.is_suffix_of(name)
    ||| ".wmv"@.is_suffix_of(name)
    ||| ".ts"@.is_suffix_of(name)
    ||| ".m2ts"@.is_suffix_of(name)
    ||| ".webm"@.is_suffix_of(name)
    ||| ".mpg"@.is_suffix_of(name)
    ||| ".mpeg"@.is_suffix_of(name)
}

/// A name is that of a video file, whatever its case.
pub open spec fn is_video_name(name: Seq<char>) -> bool {
    has_video_extension(text::lower(name))
}

/// Whether a name in lower case ends like that of a video file.
pub fn video_extension(name: &str) -> (res: bool)
    ensures
        res == has_video_extension(name@),
{
    text::ends_with(name, ".mkv") || text::ends_with(name, ".mp4") || text::ends_with(name, ".avi")
        || text::ends_with(name, ".mov") || text::ends_with(name, ".wmv") || text::ends_with(
        name,
        ".ts",
    ) || text::ends_with(name, ".m2ts") || text::ends_with(name, ".webm") || text::ends_with(
        name,
        ".mpg",
    ) || text::ends_with(name, ".mpeg")
}

/// Whether a name is that of a video file.
pub fn video_name(name: &str) -> (res: bool)
    ensures
        res == is_video_name(name@),
{
    let name = text::lowercase(name);
    video_extension(name.as_str())
}

/// A signed number read as an unsigned one of the same width.
pub open spec fn as_unsigned(n: i64) -> u64 {
    if n < 0 {
        (n + 0x1_0000_0000_0000_0000) as u64
    } else {
        n as u64
    }
}

/// A signed number read as an unsigned one of the same width.
pub fn unsigned(n: i64) -> (res: u64)
    ensures
        res == as_unsigned(n),
{
    if n < 0 {
        let below_zero: u64 = (-(n + 1)) as u64;
        u64::MAX - below_zero
    } else {
        n as u64
    }
}

/// The lower half of a signed number.
pub open spec fn low_half(n: i64) -> u32 {
    (as_unsigned(n) % 0x1_0000_0000) as u32
}

/// The lower half of a signed number.
pub fn lower_half(n: i64) -> (res: u32)
    ensures
        res == low_half(n),
{
    (unsigned(n) % 0x1_0000_0000) as u32
}

// ---------------------------------------------------------------------------
// Lists of assets
// ---------------------------------------------------------------------------

/// The assets from the largest to the smallest; assets of one size keep their order.
pub open spec fn largest_first(assets: Seq<AssetView>) -> Seq<AssetView> {
    stable::sort_by(assets, |a: AssetView| -(a.key.size_bytes as int))
}

/// The assets from the largest to the smallest.
pub fn sorted_by_size(assets: Vec<AssetRef>) -> (res: Vec<AssetRef>)
    ensures
        asset_views(res@) == largest_first(asset_views(assets@)),
{
    let ghost all = assets@;
    let ghost key = |a: AssetView| -(a.key.size_bytes as int);
    let mut res: Vec<AssetRef> = Vec::new();
    assert(asset_views(all.take(0)) =~= Seq::empty());
    assert(asset_views(res@) =~= Seq::empty());
    for asset in iter: assets.into_iter()
        invariant
            iter.seq() == all,
            key == (|a: AssetView| -(a.key.size_bytes as int)),
            asset_views(res@) == stable::sort_by(asset_views(all.take(iter.index())), key),
    {
        let ghost n = iter.index();
        let ghost sorted = asset_views(res@);
        let mut p: usize = res.len();
        while p > 0 && res[p - 1].key.size_bytes < asset.key.size_bytes
            invariant
                key == (|a: AssetView| -(a.key.size_bytes as int)),
                sorted == asset_views(res@),
                p <= res@.len(),
                forall|j: int| p <= j < sorted.len() ==> key(#[trigger] sorted[j]) > key(asset@),
            decreases p,
        {
            assert(sorted[p - 1] == res@[p - 1]@);
            p -= 1;
        }
        proof {
            if p > 0 {
                assert(sorted[p - 1] == res@[p - 1]@);
            }
            stable::lemma_insert_at(sorted, asset@, key, p as int);
            let longer = asset_views(all.take(n + 1));
            assert(longer.drop_last() =~= asset_views(all.take(n)));
            assert(longer.last() == asset@);
        }
        let ghost placed = asset@;
        res.insert(p, asset);
        assert(asset_views(res@) =~= sorted.insert(p as int, placed));
    }
    assert(all.take(all.len() as int) =~= all);
    res
}

/// The first asset whose key is written `target`.
pub open spec fn position_of(assets: Seq<AssetView>, target: Seq<char>) -> Option<int>
    decreases assets.len(),
{
    if assets.len() == 0 {
        None
    } else if canonical_text(assets[0].key) == target {
        Some(0)
    } else {
        match position_of(assets.drop_first(), target) {
            Some(i) => Some(i + 1),
            None => None,
        }
    }
}

/// The index of the first asset whose key is written `target`.
pub fn find_asset(assets: &[AssetRef], target: &str) -> (res: Option<usize>)
    ensures
        match res {
            Some(i) => i < assets@.len() && position_of(asset_views(assets@), target@) == Some(
                i as int,
            ),
            None => position_of(asset_views(assets@), target@) is None,
        },
{
    let ghost all = asset_views(assets@);
    let mut i: usize = 0;
    assert(all.skip(0) =~= all);
    while i < assets.len()
        invariant
            all == asset_views(assets@),
            i <= assets@.len(),
            position_of(all, target@) == match position_of(all.skip(i as int), target@) {
                Some(j) => Some(j + i),
                None => None,
            },
        decreases assets@.len() - i,
    {
        assert(all.skip(i as int)[0] == assets@[i as int]@);
        assert(all.skip(i as int).drop_first() =~= all.skip(i + 1));
        let canonical = assets[i].key.canonical();
        if text::same_text(canonical.as_str(), target) {
            return Some(i);
        }
        i += 1;
    }
    None
}

// ---------------------------------------------------------------------------
// What holds of keys
// ---------------------------------------------------------------------------

/// A text without colons.
pub open spec fn no_colon(s: Seq<char>) -> bool {
    forall|i: int| 0 <= i < s.len() ==> #[trigger] s[i] != ':'
}

/// A text up to its first colon and the text behind it are given by the whole.
proof fn lemma_colon_split(a: Seq<char>, b: Seq<char>, c: Seq<char>, d: Seq<char>)
    requires
        no_colon(a),
        no_colon(c),
        a + ":"@ + b == c + ":"@ + d,
    ensures
        a == c,
        b == d,
{
    reveal_strlit(":");
    let left = a + ":"@ + b;
    let right = c + ":"@ + d;
    assert(left[a.len() as int] == ':');
    assert(right[c.len() as int] == ':');
    if a.len() < c.len() {
        assert(right[a.len() as int] == c[a.len() as int]);
    }
    if c.len() < a.len() {
        assert(left[c.len() as int] == a[c.len() as int]);
    }
    assert forall|i: int| 0 <= i < a.len() implies a[i] == c[i] by {
        assert(left[i] == a[i]);
        assert(right[i] == c[i]);
    }
    assert(a =~= c);
    assert(left.len() == a.len() + 1 + b.len());
    assert(right.len() == c.len() + 1 + d.len());
    assert(b.len() == d.len());
    assert forall|i: int| 0 <= i < b.len() implies b[i] == d[i] by {
        assert(left[a.len() + 1 + i] == b[i]);
        assert(right[c.len() + 1 + i] == d[i]);
    }
    assert(b =~= d);
}

proof fn lemma_decimal_has_no_colon(n: nat)
    ensures
        no_colon(text::decimal(n)),
{
    text::decimal_is_digits(n);
    assert forall|i: int| 0 <= i < text::decimal(n).len() implies #[trigger] text::decimal(n)[i]
        != ':' by {
        assert(text::is_digit(text::decimal(n)[i]));
    }
}

/// A key is found again from its text: where the names in them hold no colon,
/// keys with the same text are the same.
pub proof fn canonical_is_injective(a: KeyView, b: KeyView)
    requires
        no_colon(a.provider),
        no_colon(a.item_id),
        no_colon(b.provider),
        no_colon(b.item_id),
        canonical_text(a) == canonical_text(b),
    ensures
        a == b,
{
    let rest_a = match a.file_index {
        Some(index) => text::decimal(index as nat) + ":"@ + text::decimal(a.size_bytes as nat),
        None => text::decimal(a.size_bytes as nat),
    };
    let rest_b = match b.file_index {
        Some(index) => text::decimal(index as nat) + ":"@ + text::decimal(b.size_bytes as nat),
        None => text::decimal(b.size_bytes as nat),
    };
    lemma_colon_split(
        a.provider,
        a.item_id + ":"@ + rest_a,
        b.provider,
        b.item_id + ":"@ + rest_b,
    );
    lemma_colon_split(a.item_id, rest_a, b.item_id, rest_b);
    lemma_decimal_has_no_colon(a.size_bytes as nat);
    lemma_decimal_has_no_colon(b.size_bytes as nat);
    text::decimal_injective(a.size_bytes as nat, b.size_bytes as nat);
    reveal_strlit(":");
    match (a.file_index, b.file_index) {
        (Some(i), Some(j)) => {
            lemma_decimal_has_no_colon(i as nat);
            lemma_decimal_has_no_colon(j as nat);
            lemma_colon_split(
                text::decimal(i as nat),
                text::decimal(a.size_bytes as nat),
                text::decimal(j as nat),
                text::decimal(b.size_bytes as nat),
            );
            text::decimal_injective(i as nat, j as nat);
        },
        (Some(i), None) => {
            assert(rest_a[text::decimal(i as nat).len() as int] == ':');
        },
        (None, Some(j)) => {
            assert(rest_b[text::decimal(j as nat).len() as int] == ':');
        },
        (None, None) => {},
    }
}

/// The list of candidates holds every candidate, larger ones before smaller
/// ones, and those of one size in their order.
pub proof fn candidates_are_sorted(assets: Seq<AssetView>, size: u64)
    ensures
        largest_first(assets).len() == assets.len(),
        forall|i: int, j: int|
            0 <= i <= j < assets.len() ==> (#[trigger] largest_first(
                assets,
            )[i]).key.size_bytes >= (#[trigger] largest_first(assets)[j]).key.size_bytes,
        stable::with_key(
            largest_first(assets),
            |a: AssetView| -(a.key.size_bytes as int),
            -(size as int),
        ) == stable::with_key(
            assets,
            |a: AssetView| -(a.key.size_bytes as int),
            -(size as int),
        ),
{
    let key = |a: AssetView| -(a.key.size_bytes as int);
    stable::sort_is_stable(assets, key);
    let sorted = largest_first(assets);
    assert forall|i: int, j: int| 0 <= i <= j < assets.len() implies (
    #[trigger] sorted[i]).key.size_bytes >= (#[trigger] sorted[j]).key.size_bytes by {
        assert(key(sorted[i]) <= key(sorted[j]));
    }
}

/// A key that is copied from the list of candidates is found in it: the asset
/// found has the same key, where the names in the keys hold no colon.
pub proof fn listed_key_is_found(assets: Seq<AssetView>, k: int)
    requires
        0 <= k < assets.len(),
        forall|i: int|
            0 <= i < assets.len() ==> no_colon((#[trigger] assets[i]).key.provider) && no_colon(
                assets[i].key.item_id,
            ),
    ensures
        position_of(assets, canonical_text(assets[k].key)) matches Some(i) && 0 <= i <= k
            && assets[i].key == assets[k].key,
    decreases assets.len(),
{
    if canonical_text(assets[0].key) == canonical_text(assets[k].key) {
        canonical_is_injective(assets[0].key, assets[k].key);
    } else {
        listed_key_is_found(assets.drop_first(), k - 1);
    }
}

/// A list from the largest to the smallest holds each asset as often as it was
/// there, no smaller one stands before a larger one, and those of one size keep
/// their order.
pub proof fn largest_first_keeps_assets(assets: Seq<AssetView>, size: u64)
    ensures
        largest_first(assets).to_multiset() == assets.to_multiset(),
        largest_first(assets).len() == assets.len(),
        forall|a: AssetView| #[trigger] largest_first(assets).contains(a) <==> assets.contains(a),
        forall|i: int, j: int|
            0 <= i <= j < assets.len() ==> (#[trigger] largest_first(
                assets,
            )[i]).key.size_bytes >= (#[trigger] largest_first(assets)[j]).key.size_bytes,
        largest_first(assets).filter(|a: AssetView| a.key.size_bytes == size) == assets.filter(
            |a: AssetView| a.key.size_bytes == size,
        ),
{
    broadcast use vstd::seq_lib::group_to_multiset_ensures;

    let key = |a: AssetView| -(a.key.size_bytes as int);
    let sorted = largest_first(assets);
    candidates_are_sorted(assets, size);
    stable::sort_keeps_elements(assets, key);
    stable::with_key_is_filter(assets, key, -(size as int));
    stable::with_key_is_filter(sorted, key, -(size as int));
    assert((|a: AssetView| a.key.size_bytes == size) =~= (|a: AssetView|
        key(a) == -(size as int)));
    assert forall|a: AssetView| #[trigger] sorted.contains(a) <==> assets.contains(a) by {
        assert(sorted.to_multiset().count(a) == assets.to_multiset().count(a));
    }
}

/// The asset that is found for a text is the first whose key is written so, and
/// none is found only where no key is.
pub proof fn first_match_is_found(assets: Seq<AssetView>, target: Seq<char>)
    ensures
        match position_of(assets, target) {
            Some(k) => {
                &&& 0 <= k < assets.len()
                &&& canonical_text(assets[k].key) == target
                &&& forall|i: int| 0 <= i < k ==> canonical_text((#[trigger] assets[i]).key) != target
            },
            None => forall|i: int|
                0 <= i < assets.len() ==> canonical_text((#[trigger] assets[i]).key) != target,
        },
    decreases assets.len(),
{
    if assets.len() > 0 && canonical_text(assets[0].key) != target {
        let rest = assets.drop_first();
        first_match_is_found(rest, target);
        match position_of(rest, target) {
            Some(k) => {
                assert forall|i: int| 0 <= i < k + 1 implies canonical_text(
                    (#[trigger] assets[i]).key,
                ) != target by {
                    if i > 0 {
                        assert(rest[i - 1] == assets[i]);
                    }
                }
            },
            None => {
                assert forall|i: int| 0 <= i < assets.len() implies canonical_text(
                    (#[trigger] assets[i]).key,
                ) != target by {
                    if i > 0 {
                        assert(rest[i - 1] == assets[i]);
                    }
                }
            },
        }
    }
}

/// A signed number read as unsigned is the same modulo the width, and so is its
/// lower half.
pub proof fn conversions_are_modular(n: i64)
    ensures
        as_unsigned(n) as int == n as int % 0x1_0000_0000_0000_0000,
        low_half(n) as int == n as int % 0x1_0000_0000,
        n > 0 ==> as_unsigned(n) == n,
        as_unsigned(n) == 0 <==> n == 0,
{
}

/// The extensions of video files.
pub open spec fn video_extensions() -> Seq<Seq<char>> {
    seq![
        ".mkv"@,
        ".mp4"@,
        ".avi"@,
        ".mov"@,
        ".wmv"@,
        ".ts"@,
        ".m2ts"@,
        ".webm"@,
        ".mpg"@,
        ".mpeg"@,
    ]
}

/// A name is that of a video if and only if it ends, in lower case, in one of ten
/// extensions. So names that are the same in lower case are judged alike.
pub proof fn videos_go_by_extension(name: Seq<char>, other: Seq<char>)
    ensures
        is_video_name(name) <==> exists|i: int|
            0 <= i < video_extensions().len() && (
            #[trigger] video_extensions()[i]).is_suffix_of(text::lower(name)),
        text::lower(name) == text::lower(other) ==> is_video_name(name) == is_video_name(other),
{
    let all = video_extensions();
    let low = text::lower(name);
    if is_video_name(name) {
        assert(all[0].is_suffix_of(low) || all[1].is_suffix_of(low) || all[2].is_suffix_of(low)
            || all[3].is_suffix_of(low) || all[4].is_suffix_of(low) || all[5].is_suffix_of(low)
            || all[6].is_suffix_of(low) || all[7].is_suffix_of(low) || all[8].is_suffix_of(low)
            || all[9].is_suffix_of(low));
    }
}

/// Failed calls are told apart: a refused one, a throttled one, any other status,
/// no response, and a response that cannot be read.
pub proof fn failures_are_told_apart(failure: CallFailure)
    ensures
        match failure {
            CallFailure::Status { code, message } => {
                &&& call_error(failure) is AuthFailed <==> code == 401 || code == 403
                &&& call_error(failure) is RateLimited <==> code == 429
                &&& call_error(failure) matches ErrorView::RateLimited { retry_after_secs }
                    ==> retry_after_secs == 60
                &&& call_error(failure) matches ErrorView::AuthFailed(m) ==> m == "HTTP "@
                    + text::decimal(code as nat)
                &&& code != 401 && code != 403 && code != 429 ==> call_error(failure)
                    == ErrorView::Network(
                    "HTTP "@ + text::decimal(code as nat) + ": "@ + message@,
                )
            },
            CallFailure::NoResponse(message) => call_error(failure) == ErrorView::Network(message@),
            CallFailure::Malformed(message) => call_error(failure) == ErrorView::Other(
                "JSON parse error: "@ + message@,
            ),
        },
{
}

/// The name of a file is the last part of its path. Slashes at the end, and white
/// space around the path, make no difference.
pub proof fn file_name_is_the_last_part(
    before: Seq<char>,
    folder: Seq<char>,
    name: Seq<char>,
    slashes: nat,
    behind: Seq<char>,
)
    requires
        text::all_space(before),
        text::all_space(behind),
        name.len() > 0,
        text::lacks(name, '/'),
        slashes > 0 || !text::is_space(name.last()),
    ensures
        ({
            let tail = Seq::new(slashes, |i: int| '/');
            let path = folder.push('/') + name + tail;
            &&& !text::is_space(path[0]) ==> file_name(Some(before + path + behind)) == Some(name)
            &&& !text::is_space(name[0]) ==> file_name(Some(before + (name + tail) + behind))
                == Some(name)
        }),
{
    let tail = Seq::new(slashes, |i: int| '/');
    let inner = folder.push('/') + name;
    let path = inner + tail;
    assert(name[name.len() - 1] != '/');
    assert(inner.last() == name.last());
    if slashes > 0 {
        assert(path.last() == '/');
        assert((name + tail).last() == '/');
        assert(!text::is_space('/'));
    } else {
        assert(path =~= inner);
        assert(name + tail =~= name);
    }
    text::only_the_end_is_taken_off(inner, '/', slashes);
    text::only_the_end_is_taken_off(name, '/', slashes);
    text::last_part_is_behind(folder, '/', name);
    if !text::is_space(path[0]) {
        text::trim_leaves_the_middle(before, path, behind);
    }
    if !text::is_space(name[0]) {
        assert((name + tail)[0] == name[0]);
        text::trim_leaves_the_middle(before, name + tail, behind);
    }
}

/// A path of nothing but slashes, with white space around it, has no file name, nor
/// has a path that is not there.
pub proof fn empty_path_has_no_name(before: Seq<char>, slashes: nat, behind: Seq<char>)
    requires
        text::all_space(before),
        text::all_space(behind),
    ensures
        file_name(Some(before + Seq::new(slashes, |i: int| '/') + behind)) is None,
        file_name(None) is None,
{
    let tail = Seq::new(slashes, |i: int| '/');
    assert(!text::is_space('/'));
    text::trim_leaves_the_middle(before, tail, behind);
    text::only_the_end_is_taken_off(Seq::empty(), '/', slashes);
    assert(Seq::<char>::empty() + tail =~= tail);
}

/// The text of a key is made of its parts with colons between them: behind the last
/// one stands the size, before the first the provider, then the item, and between
/// these, where there is one, the index.
pub proof fn key_text_holds_its_parts(key: KeyView)
    requires
        no_colon(key.provider),
        no_colon(key.item_id),
    ensures
        text::after_last(canonical_text(key), ':') == text::decimal(key.size_bytes as nat),
        text::split_at_first(canonical_text(key), ':') matches Some((first, rest)) && first
            == key.provider && (text::split_at_first(rest, ':') matches Some((second, last))
            && second == key.item_id && match key.file_index {
            Some(index) => text::split_at_first(last, ':') == Some(
                (text::decimal(index as nat), text::decimal(key.size_bytes as nat)),
            ),
            None => last == text::decimal(key.size_bytes as nat),
        }),
{
    reveal_strlit(":");
    let size = text::decimal(key.size_bytes as nat);
    lemma_decimal_has_no_colon(key.size_bytes as nat);
    let last = match key.file_index {
        Some(index) => text::decimal(index as nat) + ":"@ + size,
        None => size,
    };
    let rest = key.item_id + ":"@ + last;
    assert(canonical_text(key) =~= key.provider.push(':') + rest);
    text::first_part_is_before(key.provider, ':', rest);
    assert(rest =~= key.item_id.push(':') + last);
    text::first_part_is_before(key.item_id, ':', last);
    match key.file_index {
        Some(index) => {
            let number = text::decimal(index as nat);
            lemma_decimal_has_no_colon(index as nat);
            assert(last =~= number.push(':') + size);
            text::first_part_is_before(number, ':', size);
            let front = key.provider.push(':') + key.item_id.push(':') + number;
            assert(canonical_text(key) =~= front.push(':') + size);
            text::last_part_is_behind(front, ':', size);
        },
        None => {
            let front = key.provider.push(':') + key.item_id;
            assert(canonical_text(key) =~= front.push(':') + size);
            text::last_part_is_behind(front, ':', size);
        },
    }
}

/// An error says what kind of error it is, and what is known of it.
pub proof fn errors_say_their_kind(message: Seq<char>, retry_after_secs: u64)
    ensures
        error_text(ErrorView::AuthFailed(message)) == "authentication failed: "@ + message,
        error_text(ErrorView::NotFound(message)) == "asset not found: "@ + message,
        error_text(ErrorView::Network(message)) == "network error: "@ + message,
        error_text(ErrorView::Other(message)) == "provider error: "@ + message,
        error_text(ErrorView::RateLimited { retry_after_secs }) == "rate limited, retry after "@
            + text::decimal(retry_after_secs as nat) + "s"@,
{
}

/// The view of an asset shows all of it, and so does that of an error.
pub proof fn view_shows_the_whole_asset(asset: AssetRef, error: ProviderError)
    ensures
        asset@.filename == asset.filename@,
        asset@.key.provider == asset.key.provider@,
        asset@.key.item_id == asset.key.item_id@,
        asset@.key.file_index == asset.key.file_index,
        asset@.key.size_bytes == asset.key.size_bytes,
        match error {
            ProviderError::AuthFailed(m) => error@ == ErrorView::AuthFailed(m@),
            ProviderError::NotFound(m) => error@ == ErrorView::NotFound(m@),
            ProviderError::RateLimited { retry_after_secs } => error@ == (ErrorView::RateLimited {
                retry_after_secs,
            }),
            ProviderError::Network(m) => error@ == ErrorView::Network(m@),
            ProviderError::Other(m) => error@ == ErrorView::Other(m@),
        },
{
}

} // verus!
