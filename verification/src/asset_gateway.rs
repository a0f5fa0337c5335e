//! The decisions of the asset service: which requests it refuses, where it
//! looks for an asset, and what it answers with what it found.
use vstd::prelude::*;
use crate::art::{asset_key_parts, asset_url_allowed, asset_url_ok, split_asset_key};
use crate::text::{chars_of, extend, lower_all, lower_seq, string_of, trim, trim_of};

verus! {

/// The name the service answers to.
pub const RESOLVER_NAME: &'static str = "asset";

pub const NO_KEY: &'static str = "an asset request names its key";
pub const BAD_KEY: &'static str = "an asset key is <journal>/<name> over a known journal";
pub const STORE_UNAVAILABLE: &'static str = "store unavailable";
pub const UNPUBLISHED: &'static str = "asset not published by this service";
pub const NO_SOURCE: &'static str = "no node holds that asset and no url was given";
pub const OFF_SOURCE: &'static str = "that host is not an allowed asset source";
pub const FROM_PEER: &'static str = "fetching the blob from a peer";
pub const ASKING_PEERS: &'static str = "asking peers for their asset indexes";

/// An asset request that names a known journal: the key as the service
/// reads it, its journal and its name.
#[derive(Debug, Clone, PartialEq, Eq)]
pub struct AssetRequest {
    pub key: String,
    pub journal: String,
    pub name: String,
}

/// What the service answers, or what it does next.
#[derive(Debug, Clone, PartialEq, Eq)]
pub enum AssetReply {
    /// Refused with this status and reason.
    Refused(u16, String),
    /// Held: 200 with the blob's hash.
    Held(String),
    /// Under way: 202 with why.
    Pending(String),
    /// Fetch the art from this source.
    Fetch(String),
}

/// What a peer mesh knows of an asset.
#[derive(Debug, Clone, PartialEq, Eq)]
pub enum MeshFound {
    Held(String),
    Provider(String),
    Unknown,
}

/// Where the search for an asset ended.
#[derive(Debug, Clone, PartialEq, Eq)]
pub enum AssetOutcome {
    Held(String),
    Pending(String),
    Fetch,
    /// Not in this service's published journals (a service with no mesh).
    Unpublished,
    /// The store could not be opened.
    StoreUnavailable,
}

/// What an asset request reads as: no key is refused (400), a key that is
/// not `journal/name` over a known journal is refused (400); else the key,
/// trimmed and lower-cased, with its parts.
pub open spec fn request_read(key: Option<Seq<char>>, r: Result<AssetRequest, AssetReply>) -> bool {
    match key {
        None => r matches Err(AssetReply::Refused(s, m)) && s == 400 && m@ == NO_KEY@,
        Some(k) => match asset_key_parts(lower_seq(trim(k))) {
            None => r matches Err(AssetReply::Refused(s, m)) && s == 400 && m@ == BAD_KEY@,
            Some((j, n)) => r matches Ok(q) && q.key@ == lower_seq(trim(k)) && q.journal@ == j && q.name@ == n,
        },
    }
}

/// Reads the key of an asset request.
pub fn asset_request(key: Option<&str>) -> (r: Result<AssetRequest, AssetReply>)
    ensures
        request_read(
            match key {
                Some(k) => Some(k@),
                None => None,
            },
            r,
        ),
{
    let key = match key {
        Some(k) => k,
        None => {
            return Err(AssetReply::Refused(400, string_of(chars_of(NO_KEY).as_slice())));
        },
    };
    let cleaned = string_of(lower_all(trim_of(chars_of(key).as_slice()).as_slice()).as_slice());
    match split_asset_key(cleaned.as_str()) {
        Some((journal, name)) => Ok(AssetRequest { key: cleaned, journal, name }),
        None => Err(AssetReply::Refused(400, string_of(chars_of(BAD_KEY).as_slice()))),
    }
}

/// Where a search that found nothing in the local journal ends, by what
/// the mesh knows: held by this node, coming from a peer, or unknown; an
/// unknown asset is fetched from its source once no peer's index is
/// missing, and waits for those indexes otherwise.
pub fn mesh_outcome(found: MeshFound, missing_indexes: usize) -> (r: AssetOutcome)
    ensures
        match found {
            MeshFound::Held(h) => r == AssetOutcome::Held(h),
            MeshFound::Provider(_) => r matches AssetOutcome::Pending(w) && w@ == FROM_PEER@,
            MeshFound::Unknown => if missing_indexes == 0 {
                r == AssetOutcome::Fetch
            } else {
                r matches AssetOutcome::Pending(w) && w@ == ASKING_PEERS@
            },
        },
{
    match found {
        MeshFound::Held(h) => AssetOutcome::Held(h),
        MeshFound::Provider(_) => AssetOutcome::Pending(string_of(chars_of(FROM_PEER).as_slice())),
        MeshFound::Unknown => if missing_indexes == 0 {
            AssetOutcome::Fetch
        } else {
            AssetOutcome::Pending(string_of(chars_of(ASKING_PEERS).as_slice()))
        },
    }
}

/// What the service answers once the search has ended: a held asset with
/// its hash (200), one under way with why (202), an unpublished one (404),
/// a store that would not open (500); an asset to fetch needs a source
/// (404 without one), from an allowed host (403), and is then fetched from
/// the source, trimmed.
pub fn asset_step(outcome: AssetOutcome, url: Option<&str>) -> (r: AssetReply)
    ensures
        match outcome {
            AssetOutcome::Held(h) => r == AssetReply::Held(h),
            AssetOutcome::Pending(w) => r == AssetReply::Pending(w),
            AssetOutcome::Unpublished => r matches AssetReply::Refused(s, m) && s == 404 && m@ == UNPUBLISHED@,
            AssetOutcome::StoreUnavailable => r matches AssetReply::Refused(s, m) && s == 500 && m@
                == STORE_UNAVAILABLE@,
            AssetOutcome::Fetch => match url {
                None => r matches AssetReply::Refused(s, m) && s == 404 && m@ == NO_SOURCE@,
                Some(u) => if asset_url_ok(trim(u@)) {
                    r matches AssetReply::Fetch(f) && f@ == trim(u@)
                } else {
                    r matches AssetReply::Refused(s, m) && s == 403 && m@ == OFF_SOURCE@
                },
            },
        },
{
    match outcome {
        AssetOutcome::Held(h) => AssetReply::Held(h),
        AssetOutcome::Pending(w) => AssetReply::Pending(w),
        AssetOutcome::Unpublished => AssetReply::Refused(404, string_of(chars_of(UNPUBLISHED).as_slice())),
        AssetOutcome::StoreUnavailable => AssetReply::Refused(500, string_of(chars_of(STORE_UNAVAILABLE).as_slice())),
        AssetOutcome::Fetch => match url {
            None => AssetReply::Refused(404, string_of(chars_of(NO_SOURCE).as_slice())),
            Some(u) => {
                let source = string_of(trim_of(chars_of(u).as_slice()).as_slice());
                if asset_url_allowed(source.as_str()) {
                    AssetReply::Fetch(source)
                } else {
                    AssetReply::Refused(403, string_of(chars_of(OFF_SOURCE).as_slice()))
                }
            },
        },
    }
}

/// What a fetch from a source answers: the stored blob's hash (200), or
/// the source and the failure (502).
pub fn asset_fetched(url: &str, fetched: Result<String, String>) -> (r: AssetReply)
    ensures
        match fetched {
            Ok(h) => r == AssetReply::Held(h),
            Err(e) => r matches AssetReply::Refused(s, m) && s == 502 && m@ == url@ + ": "@ + e@,
        },
{
    match fetched {
        Ok(h) => AssetReply::Held(h),
        Err(e) => {
            let mut m = chars_of(url);
            extend(&mut m, chars_of(": ").as_slice());
            extend(&mut m, chars_of(e.as_str()).as_slice());
            AssetReply::Refused(502, string_of(m.as_slice()))
        },
    }
}

} // verus!
