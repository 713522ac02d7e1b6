//! Real-Debrid: calls of its API, and what to make of the responses.

use crate::events;
use crate::provider;
use crate::provider::{
    ApiCall, AssetDetails, AssetKey, AssetRef, AssetView, CallMethod, ErrorView, KeyView,
    ProviderError, ResolvedAsset,
};
use crate::seqs;
use crate::text;
use vstd::prelude::*;

verus! {

/// A torrent in the list of torrents.
#[derive(Debug, Clone)]
pub struct RdTorrent {
    pub id: String,
    pub status: Option<String>,
}

/// A file of a torrent.
#[derive(Debug, Clone)]
pub struct RdTorrentFile {
    pub id: i64,
    pub path: Option<String>,
    pub bytes: Option<i64>,
    pub selected: i32,
}

/// The files and links of a torrent.
#[derive(Debug, Clone)]
pub struct RdTorrentInfo {
    pub id: String,
    pub files: Vec<RdTorrentFile>,
    pub links: Vec<String>,
}

/// A link made into a direct one.
#[derive(Debug, Clone)]
pub struct RdUnrestricted {
    pub filename: Option<String>,
    pub filesize: Option<u64>,
    pub download: Option<String>,
}

/// A torrent with its files and links.
#[derive(Debug, Clone)]
pub struct TorrentListing {
    pub torrent_id: String,
    pub info: RdTorrentInfo,
}

/// Access to Real-Debrid.
pub struct RealDebridProvider {
    api_token: String,
    base_url: String,
}

/// A call that fetches `url` with a bearer token.
pub open spec fn is_fetch(call: ApiCall, url: Seq<char>, token: Seq<char>) -> bool {
    &&& call.method == CallMethod::Get
    &&& call.url@ == url
    &&& events::text_option(call.authorization) == Some("Bearer "@ + token)
    &&& call.query@.len() == 0
    &&& call.form@.len() == 0
}

/// The torrent has been downloaded.
pub open spec fn is_downloaded(torrent: RdTorrent) -> bool {
    events::text_option(torrent.status) == Some("downloaded"@)
}

/// The identifiers of the downloaded torrents, in order.
pub open spec fn downloaded_ids(torrents: Seq<RdTorrent>) -> Seq<Seq<char>>
    decreases torrents.len(),
{
    if torrents.len() == 0 {
        Seq::empty()
    } else if is_downloaded(torrents.last()) {
        downloaded_ids(torrents.drop_last()).push(torrents.last().id@)
    } else {
        downloaded_ids(torrents.drop_last())
    }
}

/// The files of a torrent that have links: the selected ones where there are as
/// many of them as links, and otherwise the first ones of all. The link of each
/// has the same position.
pub open spec fn linked_files(info: RdTorrentInfo) -> Seq<RdTorrentFile> {
    let selected = info.files@.filter(|f: RdTorrentFile| f.selected == 1);
    if selected.len() > 0 && selected.len() == info.links@.len() {
        selected
    } else if info.files@.len() <= info.links@.len() {
        info.files@
    } else {
        info.files@.take(info.links@.len() as int)
    }
}

/// The asset that a file is a candidate for: a file that is not empty and whose
/// name is that of a video.
pub open spec fn candidate(torrent_id: Seq<char>, file: RdTorrentFile) -> Option<AssetView> {
    let size = match file.bytes {
        Some(n) => provider::as_unsigned(n),
        None => 0,
    };
    match provider::file_name(events::text_option(file.path)) {
        Some(name) => if size > 0 && provider::is_video_name(name) {
            Some(
                AssetView {
                    key: KeyView {
                        provider: "realdebrid"@,
                        item_id: torrent_id,
                        file_index: Some(provider::low_half(file.id)),
                        size_bytes: size,
                    },
                    filename: name,
                },
            )
        } else {
            None
        },
        None => None,
    }
}

/// The candidates among `files`, in order.
pub open spec fn candidates_in(torrent_id: Seq<char>, files: Seq<RdTorrentFile>) -> Seq<AssetView>
    decreases files.len(),
{
    if files.len() == 0 {
        Seq::empty()
    } else {
        let before = candidates_in(torrent_id, files.drop_last());
        match candidate(torrent_id, files.last()) {
            Some(asset) => before.push(asset),
            None => before,
        }
    }
}

/// The candidates of all listed torrents, in order.
pub open spec fn all_candidates(listings: Seq<TorrentListing>) -> Seq<AssetView>
    decreases listings.len(),
{
    if listings.len() == 0 {
        Seq::empty()
    } else {
        all_candidates(listings.drop_last()) + candidates_in(
            listings.last().torrent_id@,
            linked_files(listings.last().info),
        )
    }
}

/// The position of the first file with an index.
pub open spec fn file_position(files: Seq<RdTorrentFile>, index: u32) -> Option<int>
    decreases files.len(),
{
    if files.len() == 0 {
        None
    } else if provider::low_half(files[0].id) == index {
        Some(0)
    } else {
        match file_position(files.drop_first(), index) {
            Some(i) => Some(i + 1),
            None => None,
        }
    }
}

/// The file index of a key; a key without one stands for the first file.
pub open spec fn wanted_index(key: KeyView) -> u32 {
    match key.file_index {
        Some(index) => index,
        None => 0,
    }
}

/// The link for a key among the files of its torrent.
pub open spec fn link_of(key: KeyView, info: RdTorrentInfo) -> Result<Seq<char>, ErrorView> {
    match file_position(linked_files(info), wanted_index(key)) {
        Some(i) => Ok(info.links@[i]@),
        None => Err(
            ErrorView::NotFound(
                "File index "@ + text::decimal(wanted_index(key) as nat)
                    + " not found in torrent "@ + key.item_id,
            ),
        ),
    }
}

/// The resolved asset is the one that the response makes.
pub open spec fn is_resolved(
    resolved: ResolvedAsset,
    asset: AssetView,
    url: Seq<char>,
    response: RdUnrestricted,
    now_ms: u64,
) -> bool {
    &&& resolved.key@ == asset.key
    &&& resolved.direct_url@ == url
    &&& resolved.filename@ == match response.filename {
        Some(name) => name@,
        None => asset.filename,
    }
    &&& resolved.size_bytes == match response.filesize {
        Some(size) => size,
        None => asset.key.size_bytes,
    }
    &&& resolved.resolved_at_ms == now_ms
    &&& resolved.expiry_hint is None
    &&& resolved.provider_meta is None
}

/// The positions of the files that have links.
fn linked_positions(info: &RdTorrentInfo) -> (res: Vec<usize>)
    ensures
        res@.len() == linked_files(*info).len(),
        res@.len() <= info.links@.len(),
        forall|i: int|
            0 <= i < res@.len() ==> (#[trigger] res@[i]) < info.files@.len()
                && info.files@[res@[i] as int] == linked_files(*info)[i],
{
    let ghost chosen = |f: RdTorrentFile| f.selected == 1;
    let mut selected: Vec<usize> = Vec::new();
    let mut i: usize = 0;
    assert(info.files@.take(0).filter(chosen).len() == 0) by {
        reveal(Seq::filter);
    }
    while i < info.files.len()
        invariant
            chosen == (|f: RdTorrentFile| f.selected == 1),
            i <= info.files@.len(),
            selected@.len() == info.files@.take(i as int).filter(chosen).len(),
            forall|j: int|
                0 <= j < selected@.len() ==> (#[trigger] selected@[j]) < info.files@.len()
                    && info.files@[selected@[j] as int] == info.files@.take(i as int).filter(
                    chosen,
                )[j],
        decreases info.files@.len() - i,
    {
        proof {
            reveal(Seq::filter);
            assert(info.files@.take(i + 1).drop_last() =~= info.files@.take(i as int));
            assert(info.files@.take(i + 1).last() == info.files@[i as int]);
        }
        if info.files[i].selected == 1 {
            selected.push(i);
        }
        i += 1;
    }
    assert(info.files@.take(i as int) =~= info.files@);
    if selected.len() > 0 && selected.len() == info.links.len() {
        return selected;
    }
    let count: usize = if info.files.len() <= info.links.len() {
        info.files.len()
    } else {
        info.links.len()
    };
    let mut all: Vec<usize> = Vec::new();
    let mut i: usize = 0;
    while i < count
        invariant
            i <= count <= info.files@.len(),
            all@.len() == i,
            forall|j: int| 0 <= j < i ==> #[trigger] all@[j] == j,
        decreases count - i,
    {
        all.push(i);
        i += 1;
    }
    all
}

/// The asset that a file is a candidate for.
pub fn file_candidate(torrent_id: &str, file: &RdTorrentFile) -> (res: Option<AssetRef>)
    ensures
        match res {
            Some(asset) => candidate(torrent_id@, *file) == Some(asset@),
            None => candidate(torrent_id@, *file) is None,
        },
{
    let size: u64 = match file.bytes {
        Some(n) => provider::unsigned(n),
        None => 0,
    };
    if size == 0 {
        return None;
    }
    let path = match &file.path {
        Some(p) => Some(p.as_str()),
        None => None,
    };
    match provider::extract_filename(path) {
        Some(filename) => if provider::video_name(filename.as_str()) {
            Some(
                AssetRef {
                    key: AssetKey {
                        provider: "realdebrid".to_owned(),
                        item_id: torrent_id.to_owned(),
                        file_index: Some(provider::lower_half(file.id)),
                        size_bytes: size,
                    },
                    filename,
                },
            )
        } else {
            None
        },
        None => None,
    }
}

impl RealDebridProvider {
    /// The token that calls are made with.
    pub closed spec fn token(&self) -> Seq<char> {
        self.api_token@
    }

    /// The address that calls go to.
    pub closed spec fn base(&self) -> Seq<char> {
        self.base_url@
    }

    /// Access with a token.
    pub fn new(api_token: String) -> (res: Self)
        ensures
            res.token() == api_token@,
            res.base() == "https://api.real-debrid.com"@,
    {
        Self { api_token, base_url: "https://api.real-debrid.com".to_owned() }
    }

    /// Access with a token at another address.
    pub fn with_base_url(api_token: String, base_url: String) -> (res: Self)
        ensures
            res.token() == api_token@,
            res.base() == base_url@,
    {
        Self { api_token, base_url }
    }

    /// The name of the provider.
    pub fn name(&self) -> (res: &str)
        ensures
            res@ == "realdebrid"@,
    {
        "realdebrid"
    }

    /// The call that fetches `path`.
    fn get_call(&self, path: &str) -> (res: ApiCall)
        ensures
            is_fetch(res, self.base() + path@, self.token()),
    {
        ApiCall {
            method: CallMethod::Get,
            url: text::join(self.base_url.as_str(), path),
            authorization: Some(text::join("Bearer ", self.api_token.as_str())),
            query: Vec::new(),
            form: Vec::new(),
        }
    }

    /// The call that lists the torrents.
    pub fn torrents_call(&self) -> (res: ApiCall)
        ensures
            is_fetch(res, self.base() + "/rest/1.0/torrents?limit=200"@, self.token()),
    {
        self.get_call("/rest/1.0/torrents?limit=200")
    }

    /// The call that fetches the files and links of a torrent.
    pub fn info_call(&self, torrent_id: &str) -> (res: ApiCall)
        ensures
            is_fetch(
                res,
                self.base() + ("/rest/1.0/torrents/info/"@ + torrent_id@),
                self.token(),
            ),
    {
        let path = text::join("/rest/1.0/torrents/info/", torrent_id);
        self.get_call(path.as_str())
    }

    /// The call that makes a link into a direct one.
    pub fn unrestrict_call(&self, link: &str) -> (res: ApiCall)
        ensures
            res.method == CallMethod::PostForm,
            res.url@ == self.base() + "/rest/1.0/unrestrict/link"@,
            events::text_option(res.authorization) == Some("Bearer "@ + self.token()),
            res.query@.len() == 0,
            events::text_pairs(res.form@) == seq![("link"@, link@)],
    {
        let mut form: Vec<(String, String)> = Vec::new();
        form.push(("link".to_owned(), link.to_owned()));
        assert(events::text_pairs(form@) =~= seq![("link"@, link@)]);
        ApiCall {
            method: CallMethod::PostForm,
            url: text::join(self.base_url.as_str(), "/rest/1.0/unrestrict/link"),
            authorization: Some(text::join("Bearer ", self.api_token.as_str())),
            query: Vec::new(),
            form,
        }
    }

    /// The identifiers of the torrents whose files are to be fetched.
    pub fn downloaded(&self, torrents: &[RdTorrent]) -> (res: Vec<String>)
        ensures
            res@.map_values(|s: String| s@) == downloaded_ids(torrents@),
    {
        let mut res: Vec<String> = Vec::new();
        let mut i: usize = 0;
        assert(res@.map_values(|s: String| s@) =~= downloaded_ids(torrents@.take(0)));
        while i < torrents.len()
            invariant
                i <= torrents@.len(),
                res@.map_values(|s: String| s@) == downloaded_ids(torrents@.take(i as int)),
            decreases torrents@.len() - i,
        {
            let ghost before = res@.map_values(|s: String| s@);
            assert(torrents@.take(i + 1).drop_last() =~= torrents@.take(i as int));
            assert(torrents@.take(i + 1).last() == torrents@[i as int]);
            let torrent = &torrents[i];
            let done = match &torrent.status {
                Some(status) => text::same_text(status.as_str(), "downloaded"),
                None => false,
            };
            if done {
                let id = torrent.id.clone();
                res.push(id);
                assert(res@.map_values(|s: String| s@) =~= before.push(id@));
            }
            i += 1;
        }
        assert(torrents@.take(i as int) =~= torrents@);
        res
    }

    /// The candidates of the listed torrents, largest first.
    pub fn list_candidates(&self, listings: &[TorrentListing]) -> (res: Vec<AssetRef>)
        ensures
            provider::asset_views(res@) == provider::largest_first(all_candidates(listings@)),
            res@.len() == seqs::total(
                listings@,
                |l: TorrentListing| videos_of(l).len() as int,
            ),
            forall|t: int, k: int|
                is_video_at(listings@, t, k) ==> #[trigger] lists_file(
                    provider::asset_views(res@),
                    listings@,
                    t,
                    k,
                ),
    {
        let mut found: Vec<AssetRef> = Vec::new();
        let mut t: usize = 0;
        assert(provider::asset_views(found@) =~= all_candidates(listings@.take(0)));
        while t < listings.len()
            invariant
                t <= listings@.len(),
                provider::asset_views(found@) == all_candidates(listings@.take(t as int)),
            decreases listings@.len() - t,
        {
            let listing = &listings[t];
            let ghost earlier = provider::asset_views(found@);
            let ghost files = linked_files(listing.info);
            let ghost id = listing.torrent_id@;
            assert(listings@.take(t + 1).drop_last() =~= listings@.take(t as int));
            assert(listings@.take(t + 1).last() == listings@[t as int]);
            let positions = linked_positions(&listing.info);
            let mut i: usize = 0;
            assert(candidates_in(id, files.take(0)) =~= Seq::empty());
            assert(earlier + candidates_in(id, files.take(0)) =~= earlier);
            while i < positions.len()
                invariant
                    listing == &listings@[t as int],
                    files == linked_files(listing.info),
                    id == listing.torrent_id@,
                    i <= positions@.len(),
                    positions@.len() == files.len(),
                    forall|j: int|
                        0 <= j < positions@.len() ==> (#[trigger] positions@[j])
                            < listing.info.files@.len() && listing.info.files@[positions@[j] as int]
                            == files[j],
                    provider::asset_views(found@) == earlier + candidates_in(
                        id,
                        files.take(i as int),
                    ),
                decreases positions@.len() - i,
            {
                let ghost before = provider::asset_views(found@);
                let ghost listed = candidates_in(id, files.take(i as int));
                assert(files.take(i + 1).drop_last() =~= files.take(i as int));
                assert(files.take(i + 1).last() == files[i as int]);
                let file = &listing.info.files[positions[i]];
                if let Some(asset) = file_candidate(listing.torrent_id.as_str(), file) {
                    let ghost view = asset@;
                    found.push(asset);
                    assert(provider::asset_views(found@) =~= before.push(view));
                    assert(before.push(view) =~= earlier + listed.push(view));
                }
                i += 1;
            }
            assert(files.take(i as int) =~= files);
            t += 1;
        }
        assert(listings@.take(t as int) =~= listings@);
        let res = provider::sorted_by_size(found);
        proof {
            only_videos_are_listed(listings@);
            let assets = provider::asset_views(res@);
            assert forall|t: int, k: int| is_video_at(
                listings@,
                t,
                k,
            ) implies #[trigger] lists_file(assets, listings@, t, k) by {
                every_video_is_listed(listings@, t, k);
            }
        }
        res
    }

    /// The details of an asset, as far as they are known.
    pub fn inspect(&self, asset: &AssetRef) -> (res: AssetDetails)
        ensures
            res.key@ == asset.key@,
            res.filename@ == asset.filename@,
            res.mime_type is None,
    {
        AssetDetails {
            key: asset.key.copy(),
            filename: asset.filename.clone(),
            mime_type: None,
        }
    }

    /// The link for an asset among the files of its torrent.
    pub fn find_link(&self, asset: &AssetRef, info: &RdTorrentInfo) -> (res: Result<
        String,
        ProviderError,
    >)
        ensures
            match res {
                Ok(link) => link_of(asset.key@, *info) == Ok::<Seq<char>, ErrorView>(link@),
                Err(error) => link_of(asset.key@, *info) == Err::<Seq<char>, ErrorView>(error@),
            },
    {
        let file_index: u32 = match asset.key.file_index {
            Some(index) => index,
            None => 0,
        };
        let ghost files = linked_files(*info);
        let positions = linked_positions(info);
        let mut i: usize = 0;
        assert(files.skip(0) =~= files);
        while i < positions.len()
            invariant
                file_index == wanted_index(asset.key@),
                files == linked_files(*info),
                i <= positions@.len(),
                positions@.len() == files.len(),
                positions@.len() <= info.links@.len(),
                forall|j: int|
                    0 <= j < positions@.len() ==> (#[trigger] positions@[j]) < info.files@.len()
                        && info.files@[positions@[j] as int] == files[j],
                file_position(files, file_index) == match file_position(
                    files.skip(i as int),
                    file_index,
                ) {
                    Some(j) => Some(j + i),
                    None => None,
                },
            decreases positions@.len() - i,
        {
            assert(files.skip(i as int)[0] == files[i as int]);
            assert(files.skip(i as int).drop_first() =~= files.skip(i + 1));
            let id: i64 = info.files[positions[i]].id;
            if provider::lower_half(id) == file_index {
                return Ok(info.links[i].clone());
            }
            i += 1;
        }
        let index_text = text::decimal_text(file_index as u64);
        let mut message = text::join("File index ", index_text.as_str());
        message.append(" not found in torrent ");
        message.append(asset.key.item_id.as_str());
        Err(ProviderError::NotFound(message))
    }

    /// The direct URL of an asset, from the response to the call for its link.
    pub fn resolve_direct_url(
        &self,
        asset: &AssetRef,
        response: RdUnrestricted,
        now_ms: u64,
    ) -> (res: Result<ResolvedAsset, ProviderError>)
        ensures
            match res {
                Ok(resolved) => response.download matches Some(url) && is_resolved(
                    resolved,
                    asset@,
                    url@,
                    response,
                    now_ms,
                ),
                Err(error) => response.download is None && error@ == ErrorView::Other(
                    "Unrestrict response missing download URL"@,
                ),
            },
    {
        match response.download {
            Some(direct_url) => Ok(
                ResolvedAsset {
                    key: asset.key.copy(),
                    direct_url,
                    filename: match response.filename {
                        Some(name) => name,
                        None => asset.filename.clone(),
                    },
                    size_bytes: match response.filesize {
                        Some(size) => size,
                        None => asset.key.size_bytes,
                    },
                    resolved_at_ms: now_ms,
                    expiry_hint: None,
                    provider_meta: None,
                },
            ),
            None => Err(
                ProviderError::Other("Unrestrict response missing download URL".to_owned()),
            ),
        }
    }
}

proof fn lemma_file_position(files: Seq<RdTorrentFile>, k: int)
    requires
        0 <= k < files.len(),
    ensures
        file_position(files, provider::low_half(files[k].id)) matches Some(i) && 0 <= i <= k
            && provider::low_half(files[i].id) == provider::low_half(files[k].id),
    decreases files.len(),
{
    if provider::low_half(files[0].id) != provider::low_half(files[k].id) {
        lemma_file_position(files.drop_first(), k - 1);
    }
}

proof fn lemma_candidate_file(torrent_id: Seq<char>, files: Seq<RdTorrentFile>, n: int) -> (k: int)
    requires
        0 <= n < candidates_in(torrent_id, files).len(),
    ensures
        0 <= k < files.len(),
        candidate(torrent_id, files[k]) == Some(candidates_in(torrent_id, files)[n]),
    decreases files.len(),
{
    let before = candidates_in(torrent_id, files.drop_last());
    if n < before.len() {
        lemma_candidate_file(torrent_id, files.drop_last(), n)
    } else {
        files.len() - 1
    }
}

/// Every listed candidate can be resolved: its torrent has a link for it, and
/// that link belongs to a file with the candidate's index.
pub proof fn listed_candidates_have_links(torrent_id: Seq<char>, info: RdTorrentInfo, n: int)
    requires
        0 <= n < candidates_in(torrent_id, linked_files(info)).len(),
    ensures
        ({
            let key = candidates_in(torrent_id, linked_files(info))[n].key;
            exists|i: int|
                {
                    &&& 0 <= i < linked_files(info).len()
                    &&& link_of(key, info) == Ok::<Seq<char>, ErrorView>(
                        #[trigger] info.links@[i]@,
                    )
                    &&& provider::low_half(linked_files(info)[i].id) == wanted_index(key)
                }
        }),
{
    let files = linked_files(info);
    let key = candidates_in(torrent_id, files)[n].key;
    let k = lemma_candidate_file(torrent_id, files, n);
    lemma_file_position(files, k);
    let i = file_position(files, wanted_index(key))->0;
    assert(link_of(key, info) == Ok::<Seq<char>, ErrorView>(info.links@[i]@));
}

/// Where the files that have links have different indices, a candidate's link
/// is the one that belongs to its own file.
pub proof fn distinct_files_have_their_own_links(
    torrent_id: Seq<char>,
    info: RdTorrentInfo,
    k: int,
)
    requires
        0 <= k < linked_files(info).len(),
        candidate(torrent_id, linked_files(info)[k]) is Some,
        forall|i: int, j: int|
            0 <= i < j < linked_files(info).len() ==> provider::low_half(
                (#[trigger] linked_files(info)[i]).id,
            ) != provider::low_half((#[trigger] linked_files(info)[j]).id),
    ensures
        link_of(candidate(torrent_id, linked_files(info)[k])->0.key, info) == Ok::<
            Seq<char>,
            ErrorView,
        >(info.links@[k]@),
{
    let files = linked_files(info);
    lemma_file_position(files, k);
    let i = file_position(files, provider::low_half(files[k].id))->0;
    if i < k {
        assert(provider::low_half(files[i].id) != provider::low_half(files[k].id));
    }
}

/// Every listed candidate is a video that is not empty.
pub proof fn listed_candidates_are_videos(torrent_id: Seq<char>, files: Seq<RdTorrentFile>, n: int)
    requires
        0 <= n < candidates_in(torrent_id, files).len(),
    ensures
        candidates_in(torrent_id, files)[n].key.size_bytes > 0,
        candidates_in(torrent_id, files)[n].key.item_id == torrent_id,
        provider::is_video_name(candidates_in(torrent_id, files)[n].filename),
{
    let k = lemma_candidate_file(torrent_id, files, n);
}

/// A file is to be listed: it is not empty, and the last part of its path is the
/// name of a video.
pub open spec fn is_listed_file(file: RdTorrentFile) -> bool {
    &&& file.bytes matches Some(n) && n != 0
    &&& provider::file_name(events::text_option(file.path)) matches Some(name)
        && provider::is_video_name(name)
}

/// An asset is that of a file of a torrent: it has the torrent's identifier, the
/// file's index and size, and its name.
pub open spec fn is_asset_of(
    asset: AssetView,
    torrent_id: Seq<char>,
    file: RdTorrentFile,
) -> bool {
    &&& asset.key.provider == "realdebrid"@
    &&& asset.key.item_id == torrent_id
    &&& asset.key.file_index == Some((file.id as int % 0x1_0000_0000) as u32)
    &&& file.bytes matches Some(n) && asset.key.size_bytes as int == n as int
        % 0x1_0000_0000_0000_0000
    &&& provider::file_name(events::text_option(file.path)) == Some(asset.filename)
}

proof fn lemma_candidate_is_asset(torrent_id: Seq<char>, file: RdTorrentFile)
    ensures
        candidate(torrent_id, file) is Some <==> is_listed_file(file),
        candidate(torrent_id, file) matches Some(asset) ==> is_asset_of(asset, torrent_id, file),
{
    provider::conversions_are_modular(file.id);
    if let Some(n) = file.bytes {
        provider::conversions_are_modular(n);
    }
}

/// Every file of a torrent that is to be listed is listed, in order, once, and no
/// other file is.
pub proof fn torrent_is_listed_in_full(torrent_id: Seq<char>, files: Seq<RdTorrentFile>)
    ensures
        ({
            let kept = files.filter(|f: RdTorrentFile| is_listed_file(f));
            let assets = candidates_in(torrent_id, files);
            &&& assets.len() == kept.len()
            &&& forall|n: int|
                0 <= n < kept.len() ==> is_asset_of(#[trigger] assets[n], torrent_id, kept[n])
        }),
    decreases files.len(),
{
    reveal(Seq::filter);
    if files.len() > 0 {
        torrent_is_listed_in_full(torrent_id, files.drop_last());
        lemma_candidate_is_asset(torrent_id, files.last());
    }
}

proof fn lemma_listed_file_is_candidate(
    torrent_id: Seq<char>,
    files: Seq<RdTorrentFile>,
    k: int,
) -> (n: int)
    requires
        0 <= k < files.len(),
        is_listed_file(files[k]),
    ensures
        0 <= n < candidates_in(torrent_id, files).len(),
        is_asset_of(candidates_in(torrent_id, files)[n], torrent_id, files[k]),
    decreases files.len(),
{
    let last = files.len() - 1;
    lemma_candidate_is_asset(torrent_id, files[last]);
    if k == last {
        candidates_in(torrent_id, files).len() - 1
    } else {
        lemma_listed_file_is_candidate(torrent_id, files.drop_last(), k)
    }
}

proof fn lemma_all_candidates_hold(listings: Seq<TorrentListing>, t: int, n: int)
    requires
        0 <= t < listings.len(),
        0 <= n < candidates_in(listings[t].torrent_id@, linked_files(listings[t].info)).len(),
    ensures
        all_candidates(listings).contains(
            candidates_in(listings[t].torrent_id@, linked_files(listings[t].info))[n],
        ),
    decreases listings.len(),
{
    let before = all_candidates(listings.drop_last());
    let own = candidates_in(
        listings.last().torrent_id@,
        linked_files(listings.last().info),
    );
    if t == listings.len() - 1 {
        assert((before + own)[before.len() + n] == own[n]);
    } else {
        let shorter = listings.drop_last();
        lemma_all_candidates_hold(shorter, t, n);
        let asset = candidates_in(listings[t].torrent_id@, linked_files(listings[t].info))[n];
        assert(shorter[t] == listings[t]);
        let i = before.index_of(asset);
        assert((before + own)[i] == asset);
    }
}

/// A file to be listed stands at a place in the listings.
pub open spec fn is_video_at(listings: Seq<TorrentListing>, t: int, k: int) -> bool {
    &&& 0 <= t < listings.len()
    &&& 0 <= k < linked_files(listings[t].info).len()
    &&& is_listed_file(linked_files(listings[t].info)[k])
}

/// A list has an asset of the file at a place in the listings.
pub open spec fn lists_file(
    assets: Seq<AssetView>,
    listings: Seq<TorrentListing>,
    t: int,
    k: int,
) -> bool {
    exists|n: int|
        0 <= n < assets.len() && is_asset_of(
            #[trigger] assets[n],
            listings[t].torrent_id@,
            linked_files(listings[t].info)[k],
        )
}

/// No video is missing from a list of candidates: for each listed torrent and each
/// of its files that has a link, is not empty and is named like a video, the list
/// has an asset.
pub proof fn every_video_is_listed(listings: Seq<TorrentListing>, t: int, k: int)
    requires
        0 <= t < listings.len(),
        0 <= k < linked_files(listings[t].info).len(),
        is_listed_file(linked_files(listings[t].info)[k]),
    ensures
        ({
            let assets = provider::largest_first(all_candidates(listings));
            exists|n: int|
                0 <= n < assets.len() && is_asset_of(
                    #[trigger] assets[n],
                    listings[t].torrent_id@,
                    linked_files(listings[t].info)[k],
                )
        }),
{
    let all = all_candidates(listings);
    let assets = provider::largest_first(all);
    let files = linked_files(listings[t].info);
    let n = lemma_listed_file_is_candidate(listings[t].torrent_id@, files, k);
    let asset = candidates_in(listings[t].torrent_id@, files)[n];
    lemma_all_candidates_hold(listings, t, n);
    provider::largest_first_keeps_assets(all, 0);
    assert(assets.contains(asset));
    let i = assets.index_of(asset);
    assert(assets[i] == asset);
}

/// The files of a torrent that are to be listed.
pub open spec fn videos_of(listing: TorrentListing) -> Seq<RdTorrentFile> {
    linked_files(listing.info).filter(|f: RdTorrentFile| is_listed_file(f))
}

/// An asset is that of a file to be listed at a place in the listings.
pub open spec fn is_asset_at(
    asset: AssetView,
    listings: Seq<TorrentListing>,
    t: int,
    k: int,
) -> bool {
    &&& 0 <= t < listings.len()
    &&& 0 <= k < linked_files(listings[t].info).len()
    &&& is_listed_file(linked_files(listings[t].info)[k])
    &&& is_asset_of(asset, listings[t].torrent_id@, linked_files(listings[t].info)[k])
}

/// An asset is that of a file to be listed of one of the torrents.
pub open spec fn is_listed_from(asset: AssetView, listings: Seq<TorrentListing>) -> bool {
    exists|t: int, k: int| #[trigger] is_asset_at(asset, listings, t, k)
}

/// A list of candidates has as many assets as there are videos, from the largest
/// to the smallest, and each is that of a video of one of the torrents.
pub proof fn only_videos_are_listed(listings: Seq<TorrentListing>)
    ensures
        ({
            let assets = provider::largest_first(all_candidates(listings));
            &&& assets.len() == seqs::total(listings, |l: TorrentListing| videos_of(l).len() as int)
            &&& forall|i: int, j: int|
                0 <= i <= j < assets.len() ==> (#[trigger] assets[i]).key.size_bytes >= (
                #[trigger] assets[j]).key.size_bytes
            &&& forall|n: int|
                0 <= n < assets.len() ==> is_listed_from(#[trigger] assets[n], listings)
        }),
{
    let all = all_candidates(listings);
    let assets = provider::largest_first(all);
    lemma_candidates_count(listings);
    provider::largest_first_keeps_assets(all, 0);
    assert forall|n: int| 0 <= n < assets.len() implies is_listed_from(
        #[trigger] assets[n],
        listings,
    ) by {
        assert(assets.contains(assets[n]));
        assert(all.contains(assets[n]));
        let m = all.index_of(assets[n]);
        let (t, k) = lemma_candidate_origin(listings, m);
        assert(is_asset_at(assets[n], listings, t, k));
    }
}

proof fn lemma_candidates_count(listings: Seq<TorrentListing>)
    ensures
        all_candidates(listings).len() == seqs::total(
            listings,
            |l: TorrentListing| videos_of(l).len() as int,
        ),
    decreases listings.len(),
{
    if listings.len() > 0 {
        lemma_candidates_count(listings.drop_last());
        torrent_is_listed_in_full(
            listings.last().torrent_id@,
            linked_files(listings.last().info),
        );
    }
}

proof fn lemma_candidate_origin(listings: Seq<TorrentListing>, m: int) -> (res: (int, int))
    requires
        0 <= m < all_candidates(listings).len(),
    ensures
        0 <= res.0 < listings.len(),
        0 <= res.1 < linked_files(listings[res.0].info).len(),
        is_listed_file(linked_files(listings[res.0].info)[res.1]),
        is_asset_at(all_candidates(listings)[m], listings, res.0, res.1),
    decreases listings.len(),
{
    let shorter = listings.drop_last();
    let before = all_candidates(shorter);
    if m < before.len() {
        let (t, k) = lemma_candidate_origin(shorter, m);
        assert(shorter[t] == listings[t]);
        (t, k)
    } else {
        let id = listings.last().torrent_id@;
        let files = linked_files(listings.last().info);
        let k = lemma_candidate_file(id, files, m - before.len());
        lemma_candidate_is_asset(id, files[k]);
        (listings.len() - 1, k)
    }
}

/// The files with links are the selected ones where there are as many as links,
/// and otherwise the first ones, one for each link as far as they go.
pub proof fn links_go_with_files(info: RdTorrentInfo)
    ensures
        ({
            let selected = info.files@.filter(|f: RdTorrentFile| f.selected == 1);
            let linked = linked_files(info);
            &&& linked.len() <= info.links@.len()
            &&& info.links@.len() > 0 && selected.len() == info.links@.len() ==> linked == selected
            &&& info.links@.len() == 0 || selected.len() != info.links@.len() ==> {
                &&& linked.is_prefix_of(info.files@)
                &&& linked.len() == info.files@.len() || linked.len() == info.links@.len()
            }
        }),
{
}

/// The torrents whose files are fetched are exactly those that have been
/// downloaded, in order.
pub proof fn downloaded_torrents_are_fetched(torrents: Seq<RdTorrent>)
    ensures
        downloaded_ids(torrents) == torrents.filter(
            |t: RdTorrent| t.status matches Some(status) && status@ == "downloaded"@,
        ).map_values(|t: RdTorrent| t.id@),
    decreases torrents.len(),
{
    let done = |t: RdTorrent| t.status matches Some(status) && status@ == "downloaded"@;
    reveal(Seq::filter);
    if torrents.len() > 0 {
        downloaded_torrents_are_fetched(torrents.drop_last());
    }
    assert(downloaded_ids(torrents) =~= torrents.filter(done).map_values(|t: RdTorrent| t.id@));
}

/// The link for a key is that of the first file with its index among those that
/// have links; a key without an index asks for index zero. There is none only
/// where no such file has the index.
pub proof fn link_is_of_the_file(key: KeyView, info: RdTorrentInfo)
    ensures
        ({
            let files = linked_files(info);
            let index = match key.file_index {
                Some(n) => n as int,
                None => 0,
            };
            match link_of(key, info) {
                Ok(link) => exists|i: int|
                    {
                        &&& 0 <= i < files.len()
                        &&& (#[trigger] files[i]).id as int % 0x1_0000_0000 == index
                        &&& link == info.links@[i]@
                        &&& forall|j: int|
                            0 <= j < i ==> (#[trigger] files[j]).id as int % 0x1_0000_0000 != index
                    },
                Err(error) => {
                    &&& error == ErrorView::NotFound(
                        "File index "@ + text::decimal(index as nat) + " not found in torrent "@
                            + key.item_id,
                    )
                    &&& forall|i: int|
                        0 <= i < files.len() ==> (#[trigger] files[i]).id as int % 0x1_0000_0000
                            != index
                },
            }
        }),
{
    lemma_first_position(linked_files(info), wanted_index(key));
    let files = linked_files(info);
    assert forall|i: int| 0 <= i < files.len() implies provider::low_half(
        (#[trigger] files[i]).id,
    ) as int == files[i].id as int % 0x1_0000_0000 by {
        provider::conversions_are_modular(files[i].id);
    }
    if let Some(i) = file_position(files, wanted_index(key)) {
        assert(files[i].id as int % 0x1_0000_0000 == wanted_index(key));
    }
}

proof fn lemma_first_position(files: Seq<RdTorrentFile>, index: u32)
    ensures
        match file_position(files, index) {
            Some(i) => {
                &&& 0 <= i < files.len()
                &&& provider::low_half(files[i].id) == index
                &&& forall|j: int| 0 <= j < i ==> provider::low_half((#[trigger] files[j]).id) != index
            },
            None => forall|j: int|
                0 <= j < files.len() ==> provider::low_half((#[trigger] files[j]).id) != index,
        },
    decreases files.len(),
{
    if files.len() > 0 && provider::low_half(files[0].id) != index {
        let rest = files.drop_first();
        lemma_first_position(rest, index);
        assert forall|j: int| 1 <= j < files.len() implies #[trigger] files[j] == rest[j - 1] by {}
        if let Some(i) = file_position(rest, index) {
            assert forall|j: int| 0 <= j < i + 1 implies provider::low_half((#[trigger] files[j]).id)
                != index by {
                if j > 0 {
                    assert(files[j] == rest[j - 1]);
                }
            }
        } else {
            assert forall|j: int| 0 <= j < files.len() implies provider::low_half(
                (#[trigger] files[j]).id,
            ) != index by {
                if j > 0 {
                    assert(files[j] == rest[j - 1]);
                }
            }
        }
    }
}

/// A resolved asset keeps its key. Its name and size are those of the response
/// where it has them, and its own otherwise.
pub proof fn resolved_is_the_asset(
    resolved: ResolvedAsset,
    asset: AssetView,
    url: Seq<char>,
    response: RdUnrestricted,
    now_ms: u64,
)
    requires
        is_resolved(resolved, asset, url, response, now_ms),
    ensures
        resolved.key@ == asset.key,
        resolved.direct_url@ == url,
        resolved.resolved_at_ms == now_ms,
        response.filename matches Some(name) ==> resolved.filename@ == name@,
        response.filename is None ==> resolved.filename@ == asset.filename,
        response.filesize matches Some(size) ==> resolved.size_bytes == size,
        response.filesize is None ==> resolved.size_bytes == asset.key.size_bytes,
        resolved.expiry_hint is None,
        resolved.provider_meta is None,
{
}

/// A fetch carries the token, goes to its address, and sends nothing else.
pub proof fn fetches_carry_the_token(call: ApiCall, url: Seq<char>, token: Seq<char>)
    requires
        is_fetch(call, url, token),
    ensures
        call.method == CallMethod::Get,
        call.url@ == url,
        call.authorization matches Some(a) && a@ == "Bearer "@ + token,
        call.query@.len() == 0,
        call.form@.len() == 0,
{
}

} // verus!
