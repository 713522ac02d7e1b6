//! Premiumize: calls of its API, and what to make of the responses.

use crate::events;
use crate::provider;
use crate::provider::{
    ApiCall, AssetDetails, AssetKey, AssetRef, AssetView, CallMethod, ErrorView, KeyView,
    ProviderError, ResolvedAsset,
};
use crate::text;
use vstd::prelude::*;

verus! {

/// The response to the call that lists all items.
#[derive(Debug, Clone)]
pub struct PmListAllResponse {
    pub status: Option<String>,
    pub files: Option<Vec<PmItem>>,
}

/// An item of the list.
#[derive(Debug, Clone)]
pub struct PmItem {
    pub id: String,
    pub name: Option<String>,
    pub size: Option<i64>,
    pub mime_type: Option<String>,
    pub path: Option<String>,
}

/// The details of an item.
#[derive(Debug, Clone)]
pub struct PmItemDetails {
    pub id: Option<String>,
    pub name: Option<String>,
    pub size: Option<i64>,
    pub mime_type: Option<String>,
    pub link: Option<String>,
    pub stream_link: Option<String>,
}

/// Access to Premiumize.
pub struct PremiumizeProvider {
    api_key: String,
    base_url: String,
}

/// How a text is shown for debugging: in quotes, with escapes.
pub uninterp spec fn quoted(s: Seq<char>) -> Seq<char>;

/// The text of a string as `format!` shows it with `{:?}`. It depends on the
/// string alone; how it is escaped is left to the name.
#[verifier::external_body]
fn quoted_text(s: &str) -> (res: String)
    ensures
        res@ == quoted(s@),
{
    format!("{s:?}")
}

/// The status of a response as it is shown for debugging.
pub open spec fn shown_status(status: Option<Seq<char>>) -> Seq<char> {
    match status {
        Some(s) => "Some("@ + quoted(s) + ")"@,
        None => "None"@,
    }
}

/// The error for a response whose status is shown as `shown`.
pub open spec fn status_error(shown: Seq<char>) -> ErrorView {
    ErrorView::Other("Premiumize API reported status: "@ + shown)
}

/// The response reports success.
pub open spec fn is_success(response: PmListAllResponse) -> bool {
    events::text_option(response.status) == Some("success"@)
}

/// The name of an item: its own one where it has one, and otherwise the last
/// part of its path.
pub open spec fn item_name(name: Option<Seq<char>>, path: Option<Seq<char>>) -> Option<Seq<char>> {
    match name {
        Some(n) => if text::trim(n).len() > 0 {
            Some(text::trim(n))
        } else {
            provider::file_name(path)
        },
        None => provider::file_name(path),
    }
}

/// The type of an item is that of a video.
pub open spec fn is_video_type(mime_type: Option<Seq<char>>) -> bool {
    mime_type matches Some(m) && "video/"@.is_prefix_of(text::lower(text::trim(m)))
}

/// An item can be played: by its type or by its name it is a video.
pub open spec fn playable(filename: Option<Seq<char>>, mime_type: Option<Seq<char>>) -> bool {
    ||| is_video_type(mime_type)
    ||| provider::is_video_name(
        match filename {
            Some(name) => name,
            None => Seq::empty(),
        },
    )
}

/// The asset that an item is a candidate for.
pub open spec fn candidate(item: PmItem) -> Option<AssetView> {
    let size = match item.size {
        Some(n) => provider::as_unsigned(n),
        None => 0,
    };
    let filename = item_name(events::text_option(item.name), events::text_option(item.path));
    if size > 0 && playable(filename, events::text_option(item.mime_type)) {
        Some(
            AssetView {
                key: KeyView {
                    provider: "premiumize"@,
                    item_id: item.id@,
                    file_index: None,
                    size_bytes: size,
                },
                filename: match filename {
                    Some(name) => name,
                    None => "unknown"@,
                },
            },
        )
    } else {
        None
    }
}

/// The candidates among `items`, in order.
pub open spec fn candidates_in(items: Seq<PmItem>) -> Seq<AssetView>
    decreases items.len(),
{
    if items.len() == 0 {
        Seq::empty()
    } else {
        let before = candidates_in(items.drop_last());
        match candidate(items.last()) {
            Some(asset) => before.push(asset),
            None => before,
        }
    }
}

/// The listed items; none where the response has no list.
pub open spec fn listed(response: PmListAllResponse) -> Seq<PmItem> {
    match response.files {
        Some(items) => items@,
        None => Seq::empty(),
    }
}

/// The name of an item.
pub fn best_filename(name: Option<&str>, path: Option<&str>) -> (res: Option<String>)
    ensures
        match res {
            Some(n) => item_name(provider::str_option(name), provider::str_option(path)) == Some(
                n@,
            ),
            None => item_name(provider::str_option(name), provider::str_option(path)) is None,
        },
{
    if let Some(n) = name {
        let trimmed = text::trimmed(n);
        if !trimmed.as_str().is_empty() {
            return Some(trimmed);
        }
    }
    provider::extract_filename(path)
}

/// Whether an item can be played.
pub fn is_playable(filename: Option<&str>, mime_type: Option<&str>) -> (res: bool)
    ensures
        res == playable(provider::str_option(filename), provider::str_option(mime_type)),
{
    if let Some(mime) = mime_type {
        let trimmed = text::trimmed(mime);
        let lower = text::lowercase(trimmed.as_str());
        if text::starts_with(lower.as_str(), "video/") {
            return true;
        }
    }
    match filename {
        Some(name) => provider::video_name(name),
        None => {
            let empty = String::new();
            assert(empty@ =~= Seq::empty());
            provider::video_name(empty.as_str())
        },
    }
}

/// The asset that an item is a candidate for.
pub fn item_candidate(item: &PmItem) -> (res: Option<AssetRef>)
    ensures
        match res {
            Some(asset) => candidate(*item) == Some(asset@),
            None => candidate(*item) is None,
        },
{
    let size: u64 = match item.size {
        Some(n) => provider::unsigned(n),
        None => 0,
    };
    if size == 0 {
        return None;
    }
    let name = match &item.name {
        Some(n) => Some(n.as_str()),
        None => None,
    };
    let path = match &item.path {
        Some(p) => Some(p.as_str()),
        None => None,
    };
    let mime_type = match &item.mime_type {
        Some(m) => Some(m.as_str()),
        None => None,
    };
    let filename = best_filename(name, path);
    let can_play = match &filename {
        Some(f) => is_playable(Some(f.as_str()), mime_type),
        None => is_playable(None, mime_type),
    };
    if !can_play {
        return None;
    }
    Some(
        AssetRef {
            key: AssetKey {
                provider: "premiumize".to_owned(),
                item_id: item.id.clone(),
                file_index: None,
                size_bytes: size,
            },
            filename: match filename {
                Some(f) => f,
                None => "unknown".to_owned(),
            },
        },
    )
}

/// The error for a response whose status is shown as `shown`.
pub fn bad_status(shown: &str) -> (res: ProviderError)
    ensures
        res@ == status_error(shown@),
{
    ProviderError::Other(text::join("Premiumize API reported status: ", shown))
}

/// The error for a response that does not report success.
pub fn status_failure(status: Option<&str>) -> (res: ProviderError)
    ensures
        res@ == status_error(shown_status(provider::str_option(status))),
{
    match status {
        Some(s) => {
            let inner = quoted_text(s);
            let front = text::join("Some(", inner.as_str());
            let shown = text::join(front.as_str(), ")");
            bad_status(shown.as_str())
        },
        None => bad_status("None"),
    }
}

/// The item's own name, or that of the asset where it has none.
pub open spec fn detail_name(details: PmItemDetails, asset: AssetView) -> Seq<char> {
    match details.name {
        Some(name) => name@,
        None => asset.filename,
    }
}

/// The URL of an item: the one for streaming where there is one, and otherwise
/// the one for downloading.
pub open spec fn item_url(details: PmItemDetails) -> Option<Seq<char>> {
    match details.stream_link {
        Some(url) => Some(url@),
        None => events::text_option(details.link),
    }
}

/// The resolved asset is the one that the details make.
pub open spec fn is_resolved(
    resolved: ResolvedAsset,
    asset: AssetView,
    url: Seq<char>,
    details: PmItemDetails,
    now_ms: u64,
) -> bool {
    &&& resolved.key@ == asset.key
    &&& resolved.direct_url@ == url
    &&& resolved.filename@ == detail_name(details, asset)
    &&& resolved.size_bytes == match details.size {
        Some(n) => provider::as_unsigned(n),
        None => asset.key.size_bytes,
    }
    &&& resolved.resolved_at_ms == now_ms
    &&& resolved.expiry_hint is None
    &&& resolved.provider_meta is None
}

impl PremiumizeProvider {
    /// The key that calls are made with.
    pub closed spec fn key(&self) -> Seq<char> {
        self.api_key@
    }

    /// The address that calls go to.
    pub closed spec fn base(&self) -> Seq<char> {
        self.base_url@
    }

    /// Access with a key.
    pub fn new(api_key: String) -> (res: Self)
        ensures
            res.key() == api_key@,
            res.base() == "https://www.premiumize.me/api"@,
    {
        Self { api_key, base_url: "https://www.premiumize.me/api".to_owned() }
    }

    /// Access with a key at another address.
    pub fn with_base_url(api_key: String, base_url: String) -> (res: Self)
        ensures
            res.key() == api_key@,
            res.base() == base_url@,
    {
        Self { api_key, base_url }
    }

    /// The name of the provider.
    pub fn name(&self) -> (res: &str)
        ensures
            res@ == "premiumize"@,
    {
        "premiumize"
    }

    /// The call that lists all items.
    pub fn list_call(&self) -> (res: ApiCall)
        ensures
            res.method == CallMethod::Get,
            res.url@ == self.base() + "/item/listall"@,
            res.authorization is None,
            events::text_pairs(res.query@) == seq![("apikey"@, self.key())],
            res.form@.len() == 0,
    {
        let mut query: Vec<(String, String)> = Vec::new();
        query.push(("apikey".to_owned(), self.api_key.clone()));
        assert(events::text_pairs(query@) =~= seq![("apikey"@, self.key())]);
        ApiCall {
            method: CallMethod::Get,
            url: text::join(self.base_url.as_str(), "/item/listall"),
            authorization: None,
            query,
            form: Vec::new(),
        }
    }

    /// The call that fetches the details of an item.
    pub fn details_call(&self, asset: &AssetRef) -> (res: ApiCall)
        ensures
            res.method == CallMethod::Get,
            res.url@ == self.base() + "/item/details"@,
            res.authorization is None,
            events::text_pairs(res.query@) == seq![
                ("apikey"@, self.key()),
                ("id"@, asset.key.item_id@),
            ],
            res.form@.len() == 0,
    {
        let mut query: Vec<(String, String)> = Vec::new();
        query.push(("apikey".to_owned(), self.api_key.clone()));
        query.push(("id".to_owned(), asset.key.item_id.clone()));
        assert(events::text_pairs(query@) =~= seq![
            ("apikey"@, self.key()),
            ("id"@, asset.key.item_id@),
        ]);
        ApiCall {
            method: CallMethod::Get,
            url: text::join(self.base_url.as_str(), "/item/details"),
            authorization: None,
            query,
            form: Vec::new(),
        }
    }

    /// The candidates among the listed items, largest first.
    pub fn list_candidates(&self, response: PmListAllResponse) -> (res: Result<
        Vec<AssetRef>,
        ProviderError,
    >)
        ensures
            match res {
                Ok(assets) => {
                    &&& is_success(response)
                    &&& provider::asset_views(assets@) == provider::largest_first(
                        candidates_in(listed(response)),
                    )
                    &&& assets@.len() == listed(response).filter(
                        |i: PmItem| is_listed_item(i),
                    ).len()
                },
                Err(error) => !is_success(response) && error@ == status_error(
                    shown_status(events::text_option(response.status)),
                ),
            },
    {
        let success = match &response.status {
            Some(status) => text::same_text(status.as_str(), "success"),
            None => false,
        };
        if !success {
            return Err(
                match &response.status {
                    Some(status) => status_failure(Some(status.as_str())),
                    None => status_failure(None),
                },
            );
        }
        let ghost all = listed(response);
        let items: Vec<PmItem> = match response.files {
            Some(items) => items,
            None => Vec::new(),
        };
        assert(items@ =~= all);
        let mut found: Vec<AssetRef> = Vec::new();
        let mut i: usize = 0;
        assert(provider::asset_views(found@) =~= candidates_in(items@.take(0)));
        while i < items.len()
            invariant
                i <= items@.len(),
                provider::asset_views(found@) == candidates_in(items@.take(i as int)),
            decreases items@.len() - i,
        {
            let ghost before = provider::asset_views(found@);
            assert(items@.take(i + 1).drop_last() =~= items@.take(i as int));
            assert(items@.take(i + 1).last() == items@[i as int]);
            if let Some(asset) = item_candidate(&items[i]) {
                let ghost view = asset@;
                found.push(asset);
                assert(provider::asset_views(found@) =~= before.push(view));
            }
            i += 1;
        }
        assert(items@.take(i as int) =~= items@);
        proof {
            items_are_listed_in_full(items@);
            provider::largest_first_keeps_assets(candidates_in(items@), 0);
        }
        Ok(provider::sorted_by_size(found))
    }

    /// The details of an asset.
    pub fn inspect(&self, asset: &AssetRef, details: PmItemDetails) -> (res: AssetDetails)
        ensures
            res.key@ == asset.key@,
            res.filename@ == detail_name(details, asset@),
            res.mime_type == details.mime_type,
    {
        AssetDetails {
            key: asset.key.copy(),
            filename: match details.name {
                Some(name) => name,
                None => asset.filename.clone(),
            },
            mime_type: details.mime_type,
        }
    }

    /// The direct URL of an asset, from its details.
    pub fn resolve_direct_url(
        &self,
        asset: &AssetRef,
        details: PmItemDetails,
        now_ms: u64,
    ) -> (res: Result<ResolvedAsset, ProviderError>)
        ensures
            match res {
                Ok(resolved) => item_url(details) matches Some(url) && is_resolved(
                    resolved,
                    asset@,
                    url,
                    details,
                    now_ms,
                ),
                Err(error) => item_url(details) is None && error@ == ErrorView::NotFound(
                    "Premiumize item "@ + asset.key.item_id@ + " has no downloadable URL"@,
                ),
            },
    {
        let direct_url = match details.stream_link {
            Some(url) => Some(url),
            None => details.link,
        };
        match direct_url {
            Some(direct_url) => Ok(
                ResolvedAsset {
                    key: asset.key.copy(),
                    direct_url,
                    filename: match details.name {
                        Some(name) => name,
                        None => asset.filename.clone(),
                    },
                    size_bytes: match details.size {
                        Some(n) => provider::unsigned(n),
                        None => asset.key.size_bytes,
                    },
                    resolved_at_ms: now_ms,
                    expiry_hint: None,
                    provider_meta: None,
                },
            ),
            None => {
                let front = text::join("Premiumize item ", asset.key.item_id.as_str());
                Err(
                    ProviderError::NotFound(
                        text::join(front.as_str(), " has no downloadable URL"),
                    ),
                )
            },
        }
    }
}

proof fn lemma_candidate_item(items: Seq<PmItem>, n: int) -> (k: int)
    requires
        0 <= n < candidates_in(items).len(),
    ensures
        0 <= k < items.len(),
        candidate(items[k]) == Some(candidates_in(items)[n]),
    decreases items.len(),
{
    if n < candidates_in(items.drop_last()).len() {
        lemma_candidate_item(items.drop_last(), n)
    } else {
        items.len() - 1
    }
}

/// Every listed candidate is an item of the list that is not empty and can be
/// played.
pub proof fn listed_candidates_are_playable(items: Seq<PmItem>, n: int)
    requires
        0 <= n < candidates_in(items).len(),
    ensures
        candidates_in(items)[n].key.size_bytes > 0,
        exists|k: int|
            {
                &&& 0 <= k < items.len()
                &&& (#[trigger] items[k]).id@ == candidates_in(items)[n].key.item_id
                &&& playable(
                    item_name(
                        events::text_option(items[k].name),
                        events::text_option(items[k].path),
                    ),
                    events::text_option(items[k].mime_type),
                )
            },
{
    let k = lemma_candidate_item(items, n);
    assert(items[k].id@ == candidates_in(items)[n].key.item_id);
}

/// An item is to be listed: it is not empty, and its type or its name is that of a
/// video.
pub open spec fn is_listed_item(item: PmItem) -> bool {
    &&& item.size matches Some(n) && n != 0
    &&& (item.mime_type matches Some(m) && "video/"@.is_prefix_of(text::lower(text::trim(m@))))
        || (item_name(events::text_option(item.name), events::text_option(item.path)) matches Some(
        name,
    ) && provider::is_video_name(name)) || (item_name(
        events::text_option(item.name),
        events::text_option(item.path),
    ) is None && provider::is_video_name(Seq::empty()))
}

/// An asset is that of an item: it has the item's identifier and size, no index,
/// and the item's name where it has one.
pub open spec fn is_asset_of(asset: AssetView, item: PmItem) -> bool {
    &&& asset.key.provider == "premiumize"@
    &&& asset.key.item_id == item.id@
    &&& asset.key.file_index is None
    &&& item.size matches Some(n) && asset.key.size_bytes as int == n as int
        % 0x1_0000_0000_0000_0000
    &&& match item_name(events::text_option(item.name), events::text_option(item.path)) {
        Some(name) => asset.filename == name,
        None => asset.filename == "unknown"@,
    }
}

proof fn lemma_candidate_is_asset(item: PmItem)
    ensures
        candidate(item) is Some <==> is_listed_item(item),
        candidate(item) matches Some(asset) ==> is_asset_of(asset, item),
{
    if let Some(n) = item.size {
        provider::conversions_are_modular(n);
    }
}

/// Every item that is to be listed is listed, in order, once, and no other item is.
pub proof fn items_are_listed_in_full(items: Seq<PmItem>)
    ensures
        ({
            let kept = items.filter(|i: PmItem| is_listed_item(i));
            let assets = candidates_in(items);
            &&& assets.len() == kept.len()
            &&& forall|n: int|
                0 <= n < kept.len() ==> is_asset_of(#[trigger] assets[n], kept[n])
        }),
    decreases items.len(),
{
    reveal(Seq::filter);
    if items.len() > 0 {
        items_are_listed_in_full(items.drop_last());
        lemma_candidate_is_asset(items.last());
    }
}

proof fn lemma_listed_item_is_candidate(items: Seq<PmItem>, k: int) -> (n: int)
    requires
        0 <= k < items.len(),
        is_listed_item(items[k]),
    ensures
        0 <= n < candidates_in(items).len(),
        is_asset_of(candidates_in(items)[n], items[k]),
    decreases items.len(),
{
    let last = items.len() - 1;
    lemma_candidate_is_asset(items[last]);
    if k == last {
        candidates_in(items).len() - 1
    } else {
        lemma_listed_item_is_candidate(items.drop_last(), k)
    }
}

/// No video is missing from a list of candidates, and nothing else is in it: each
/// item that is not empty and is a video has an asset, there are as many assets as
/// such items, and they go from the largest to the smallest.
pub proof fn every_video_is_listed(items: Seq<PmItem>, k: int)
    requires
        0 <= k < items.len(),
    ensures
        ({
            let assets = provider::largest_first(candidates_in(items));
            &&& is_listed_item(items[k]) ==> exists|n: int|
                0 <= n < assets.len() && is_asset_of(#[trigger] assets[n], items[k])
            &&& assets.len() == items.filter(|i: PmItem| is_listed_item(i)).len()
            &&& forall|i: int, j: int|
                0 <= i <= j < assets.len() ==> (#[trigger] assets[i]).key.size_bytes >= (
                #[trigger] assets[j]).key.size_bytes
        }),
{
    let all = candidates_in(items);
    let assets = provider::largest_first(all);
    items_are_listed_in_full(items);
    provider::largest_first_keeps_assets(all, 0);
    if is_listed_item(items[k]) {
        let n = lemma_listed_item_is_candidate(items, k);
        assert(all.contains(all[n]));
        assert(assets.contains(all[n]));
        let i = assets.index_of(all[n]);
        assert(assets[i] == all[n]);
    }
}

/// The name of an item is its own without the white space around it, and where
/// nothing is left of that, the last part of its path.
pub proof fn own_name_goes_first(name: Option<Seq<char>>, path: Option<Seq<char>>)
    ensures
        name matches Some(n) && text::trim(n).len() > 0 ==> item_name(name, path) == Some(
            text::trim(name->0),
        ),
        name is None || text::trim(name->0).len() == 0 ==> item_name(name, path)
            == provider::file_name(path),
{
}

/// A resolved asset keeps its key. The URL for streaming goes before the one for
/// downloading. Its name and size are those of the details where they have them,
/// and its own otherwise.
pub proof fn resolved_is_the_asset(
    resolved: ResolvedAsset,
    asset: AssetView,
    details: PmItemDetails,
    now_ms: u64,
)
    requires
        item_url(details) is Some,
        is_resolved(resolved, asset, item_url(details)->0, details, now_ms),
    ensures
        resolved.key@ == asset.key,
        details.stream_link matches Some(url) ==> resolved.direct_url@ == url@,
        details.stream_link is None ==> (details.link matches Some(url) && resolved.direct_url@
            == url@),
        resolved.resolved_at_ms == now_ms,
        details.name matches Some(name) ==> resolved.filename@ == name@,
        details.name is None ==> resolved.filename@ == asset.filename,
        details.size matches Some(n) ==> resolved.size_bytes as int == n as int
            % 0x1_0000_0000_0000_0000,
        details.size is None ==> resolved.size_bytes == asset.key.size_bytes,
        resolved.expiry_hint is None,
        resolved.provider_meta is None,
{
    if let Some(n) = details.size {
        provider::conversions_are_modular(n);
    }
}

/// An item has a URL if and only if it has one for streaming or for downloading.
pub proof fn any_link_is_a_url(details: PmItemDetails)
    ensures
        item_url(details) is Some <==> details.stream_link is Some || details.link is Some,
{
}

/// Only a response that says so is a success.
pub proof fn success_is_said(response: PmListAllResponse)
    ensures
        is_success(response) <==> (response.status matches Some(status) && status@ == "success"@),
        response.files is None ==> listed(response).len() == 0,
        response.files matches Some(items) ==> listed(response) == items@,
{
}

/// A response without success is an error that shows its status, quoted where
/// there is one.
pub proof fn failed_status_is_shown(status: Seq<char>)
    ensures
        status_error(shown_status(Some(status))) == ErrorView::Other(
            "Premiumize API reported status: "@ + ("Some("@ + quoted(status) + ")"@),
        ),
        status_error(shown_status(None)) == ErrorView::Other(
            "Premiumize API reported status: "@ + "None"@,
        ),
{
}

} // verus!
