//! The unified test server, as far as it decides anything: which URL leads to
//! what, and what a registration asks for.
//!
//! Route families:
//! - `GET /health`: readiness probe for external runners
//! - `POST /token`: register spec payloads and return UUID tokens
//! - `GET /assets/{path...}`: static test assets
//! - `GET /signal/{form}/{spec_with_ext}`: procedural signal generation
//! - `GET /stream/{hls_spec}`: HLS stream generation

use crate::hls_url::{
    hls_init_path_from_ref, hls_key_path_from_ref, hls_master_path_from_ref,
    hls_media_path_from_ref, hls_segment_path_from_ref, init_path, key_path, master_path,
    media_path, segment_path, HlsSpec,
};
use crate::outside::{join_url, joined_url};
use crate::signal_url::{
    kind_prefix, signal_path_from_token, signal_token_path, spec_with_ext, SignalFormat,
    SignalKind,
};
use crate::text::{
    after_prefix, law_a_prefix_and_the_rest_make_the_text,
    law_trimming_takes_all_of_one_character, trim_start, trimmed_start,
};
use crate::token_store::{TokenRequest, TokenRoute};
use vstd::prelude::*;
use vstd::string::*;

verus! {

/// A server that a test talks to, by its base URL.
#[derive(Debug)]
pub struct TestServerHelper {
    base_url: String,
}

/// Whether `url` is where `path` leads from `base`.
pub open spec fn leads_to(base: Seq<char>, path: Seq<char>, url: Option<String>) -> bool {
    match url {
        Some(url) => joined_url(base, path) == Some(url@),
        None => joined_url(base, path) is None,
    }
}

/// Where a static asset is served.
pub open spec fn asset_path_of(name: Seq<char>) -> Seq<char> {
    "/assets/"@ + trimmed_start(name, '/')
}

/// Where a static asset is served: slashes that its name begins with do not
/// count.
pub fn asset_path(name: &str) -> (path: String)
    ensures
        path@ == asset_path_of(name@),
{
    let trimmed = trim_start(name, '/');
    let mut path = String::from_str("/assets/");
    path.append(trimmed.as_str());
    path
}

/// What is posted to register a signal whose own path is `path`: none where
/// that is not a path to a signal of this kind.
pub fn signal_token_request(kind: &SignalKind, path: &str) -> (request: Option<TokenRequest>)
    ensures
        request is Some <==> after_prefix(path@, kind_prefix(*kind)) is Some,
        request matches Some(request) ==> {
            &&& request.route == TokenRoute::Signal
            &&& request.signal_kind matches Some(segment) && segment@ == kind.segment()
            &&& request.signal_spec_with_ext matches Some(spec) && after_prefix(
                path@,
                kind_prefix(*kind),
            ) == Some(spec@)
            &&& request.hls_spec is None
        },
{
    match spec_with_ext(kind, path) {
        Some(spec) => Some(
            TokenRequest {
                route: TokenRoute::Signal,
                signal_kind: Some(String::from_str(kind.path_segment())),
                signal_spec_with_ext: Some(spec),
                hls_spec: None,
            },
        ),
        None => None,
    }
}

/// What is posted to register an HLS stream.
pub fn hls_token_request(spec: HlsSpec) -> (request: TokenRequest)
    ensures
        request.route == TokenRoute::Hls,
        request.signal_kind is None,
        request.signal_spec_with_ext is None,
        request.hls_spec == Some(spec),
{
    TokenRequest {
        route: TokenRoute::Hls,
        signal_kind: None,
        signal_spec_with_ext: None,
        hls_spec: Some(spec),
    }
}

impl TestServerHelper {
    pub closed spec fn base(&self) -> Seq<char> {
        self.base_url@
    }

    /// A helper for the server at `base_url`.
    pub fn new(base_url: String) -> (helper: Self)
        ensures
            helper.base() == base_url@,
    {
        TestServerHelper { base_url }
    }

    /// Build an arbitrary URL on this server.
    pub fn url(&self, path: &str) -> (url: Option<String>)
        ensures
            leads_to(self.base(), path@, url),
    {
        join_url(self.base_url.as_str(), path)
    }

    /// Base URL of this server.
    pub fn base_url(&self) -> (base: &str)
        ensures
            base@ == self.base(),
    {
        self.base_url.as_str()
    }

    /// Build a URL for a static test asset.
    pub fn asset(&self, name: &str) -> (url: Option<String>)
        ensures
            leads_to(self.base(), asset_path_of(name@), url),
    {
        self.url(asset_path(name).as_str())
    }

    /// Build a URL for `/signal/{kind}/...`, of a signal that was registered.
    pub fn signal(&self, kind: &SignalKind, token: &str, format: &SignalFormat) -> (url: Option<
        String,
    >)
        ensures
            leads_to(self.base(), signal_token_path(*kind, token@, *format), url),
    {
        self.url(signal_path_from_token(kind, token, format).as_str())
    }

    /// Build a URL for `/signal/sawtooth/...`.
    pub fn sawtooth(&self, token: &str, format: &SignalFormat) -> (url: Option<String>)
        ensures
            leads_to(self.base(), signal_token_path(SignalKind::Sawtooth, token@, *format), url),
    {
        self.signal(&SignalKind::Sawtooth, token, format)
    }

    /// Build a URL for `/signal/sawtooth-desc/...`.
    pub fn sawtooth_descending(&self, token: &str, format: &SignalFormat) -> (url: Option<String>)
        ensures
            leads_to(
                self.base(),
                signal_token_path(SignalKind::SawtoothDescending, token@, *format),
                url,
            ),
    {
        self.signal(&SignalKind::SawtoothDescending, token, format)
    }

    /// Build a URL for `/signal/sine/...`.
    pub fn sine(&self, token: &str, format: &SignalFormat, freq_bits: u64) -> (url: Option<String>)
        ensures
            leads_to(
                self.base(),
                signal_token_path(SignalKind::Sine { freq_bits }, token@, *format),
                url,
            ),
    {
        self.signal(&SignalKind::Sine { freq_bits }, token, format)
    }

    /// Build a URL for `/signal/silence/...`.
    pub fn silence(&self, token: &str, format: &SignalFormat) -> (url: Option<String>)
        ensures
            leads_to(self.base(), signal_token_path(SignalKind::Silence, token@, *format), url),
    {
        self.signal(&SignalKind::Silence, token, format)
    }

    /// Build a URL for the canonical synthetic HLS master playlist.
    pub fn hls(&self, token: &str) -> (url: Option<String>)
        ensures
            leads_to(self.base(), master_path(token@), url),
    {
        self.url(hls_master_path_from_ref(token).as_str())
    }

    /// Build a URL for a synthetic HLS media playlist.
    pub fn hls_media(&self, token: &str, variant: usize) -> (url: Option<String>)
        ensures
            leads_to(self.base(), media_path(token@, variant as nat), url),
    {
        self.url(hls_media_path_from_ref(token, variant).as_str())
    }

    /// Build a URL for a synthetic HLS init segment.
    pub fn hls_init(&self, token: &str, variant: usize) -> (url: Option<String>)
        ensures
            leads_to(self.base(), init_path(token@, variant as nat), url),
    {
        self.url(hls_init_path_from_ref(token, variant).as_str())
    }

    /// Build a URL for a synthetic HLS media segment.
    pub fn hls_segment(&self, token: &str, variant: usize, segment: usize) -> (url: Option<String>)
        ensures
            leads_to(self.base(), segment_path(token@, variant as nat, segment as nat), url),
    {
        self.url(hls_segment_path_from_ref(token, variant, segment).as_str())
    }

    /// Build a URL for a synthetic HLS key payload.
    pub fn hls_key(&self, token: &str) -> (url: Option<String>)
        ensures
            leads_to(self.base(), key_path(token@), url),
    {
        self.url(hls_key_path_from_ref(token).as_str())
    }
}

/// Every asset is served below the assets, and slashes that its name begins with
/// do not count.
pub proof fn law_leading_slashes_do_not_count(name: Seq<char>)
    ensures
        asset_path_of(seq!['/'] + name) == asset_path_of(name),
        after_prefix(asset_path_of(name), "/assets/"@) matches Some(rest) && rest.is_suffix_of(name)
            && (rest.len() > 0 ==> rest[0] != '/'),
        name.len() > 0 && name[0] != '/' ==> asset_path_of(name) == "/assets/"@ + name,
{
    assert((seq!['/'] + name).skip(1) =~= name);
    law_trimming_takes_all_of_one_character(name, '/');
    law_a_prefix_and_the_rest_make_the_text(
        "/assets/"@,
        trimmed_start(name, '/'),
        asset_path_of(name),
    );
}

} // verus!
