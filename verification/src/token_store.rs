//! What has been registered, by token.

use crate::hls_spec::ResolvedHlsSpec;
use crate::hls_stream::{data_fits, init_fits, GeneratedHls, GeneratedHlsCache};
use crate::hls_url::HlsSpec;
use crate::outside::{is_hyphenated_uuid, is_uuid, is_uuid_text, new_uuid, share};
use crate::signal_url::{SignalFormat, SignalKind};
use std::sync::Arc;
use vstd::hash_map::StringHashMap;
use vstd::prelude::*;

verus! {

/// A signal that was asked for.
#[derive(Clone, Copy, Debug, PartialEq, Eq, Structural)]
pub struct SignalRequest {
    pub kind: SignalKind,
    pub sample_rate: u32,
    pub channels: u16,
    /// Frames, or none for a signal without end.
    pub total_frames: Option<u64>,
    pub format: SignalFormat,
}

/// What a token stands for.
pub enum StoredToken {
    Signal(SignalRequest),
    Hls(Arc<GeneratedHls>),
}

#[derive(Clone, Copy, Debug, PartialEq, Eq, Structural)]
pub enum TokenRoute {
    Signal,
    Hls,
}

/// What is posted to get a token.
#[derive(Debug)]
pub struct TokenRequest {
    pub route: TokenRoute,
    pub signal_kind: Option<String>,
    pub signal_spec_with_ext: Option<String>,
    pub hls_spec: Option<HlsSpec>,
}

/// What is answered to it.
#[derive(Debug)]
pub struct TokenResponse {
    pub token: String,
}

/// What has been registered, by token.
pub struct TokenStore {
    tokens: StringHashMap<StoredToken>,
}

impl TokenStore {
    /// What each token stands for.
    pub closed spec fn held(&self) -> Map<Seq<char>, StoredToken> {
        self.tokens@
    }

    pub fn new() -> (store: Self)
        ensures
            store.held() == Map::<Seq<char>, StoredToken>::empty(),
    {
        TokenStore { tokens: StringHashMap::new() }
    }

    /// Register a signal.
    pub fn insert_signal(&mut self, request: SignalRequest) -> (token: String)
        ensures
            is_hyphenated_uuid(token@),
            is_uuid_text(token@),
            final(self).held() == old(self).held().insert(token@, StoredToken::Signal(request)),
    {
        self.insert(StoredToken::Signal(request))
    }

    /// Register an HLS stream: the one that `cache` holds for its description,
    /// or a new one.
    pub fn insert_hls(&mut self, cache: &mut GeneratedHlsCache, spec: ResolvedHlsSpec) -> (token:
        String)
        requires
            old(cache).held().contains_key(spec.cache_key@) || data_fits(spec) && init_fits(spec),
        ensures
            is_hyphenated_uuid(token@),
            is_uuid_text(token@),
            old(cache).held().contains_key(spec.cache_key@) ==> {
                &&& final(cache).held() == old(cache).held()
                &&& final(self).held() == old(self).held().insert(
                    token@,
                    StoredToken::Hls(old(cache).held()[spec.cache_key@]),
                )
            },
            !old(cache).held().contains_key(spec.cache_key@) ==> {
                let stream = final(cache).held()[spec.cache_key@];
                &&& stream.spec_of() == spec
                &&& final(cache).held() == old(cache).held().insert(spec.cache_key@, stream)
                &&& final(self).held() == old(self).held().insert(token@, StoredToken::Hls(stream))
            },
    {
        let stream = cache.load_hls(spec);
        self.insert(StoredToken::Hls(stream))
    }

    /// The signal that a token stands for.
    pub fn get_signal(&self, token: &str) -> (request: Option<SignalRequest>)
        ensures
            request == signal_at(self.held(), token@),
    {
        match self.tokens.get(token) {
            Some(StoredToken::Signal(request)) => Some(*request),
            _ => None,
        }
    }

    /// The stream that a token stands for.
    pub fn get_hls(&self, token: &str) -> (stream: Option<Arc<GeneratedHls>>)
        ensures
            stream == stream_at(self.held(), token@),
    {
        match self.tokens.get(token) {
            Some(StoredToken::Hls(stream)) => Some(share(stream)),
            _ => None,
        }
    }

    /// Keep `value` under a new random token.
    fn insert(&mut self, value: StoredToken) -> (token: String)
        ensures
            is_hyphenated_uuid(token@),
            is_uuid_text(token@),
            final(self).held() == old(self).held().insert(token@, value),
    {
        let token = new_uuid();
        self.tokens.insert(token.clone(), value);
        token
    }
}

/// The signal registered under `token`.
pub open spec fn signal_at(
    held: Map<Seq<char>, StoredToken>,
    token: Seq<char>,
) -> Option<SignalRequest> {
    if held.contains_key(token) {
        match held[token] {
            StoredToken::Signal(request) => Some(request),
            StoredToken::Hls(_) => None,
        }
    } else {
        None
    }
}

/// The stream registered under `token`.
pub open spec fn stream_at(
    held: Map<Seq<char>, StoredToken>,
    token: Seq<char>,
) -> Option<Arc<GeneratedHls>> {
    if held.contains_key(token) {
        match held[token] {
            StoredToken::Signal(_) => None,
            StoredToken::Hls(stream) => Some(stream),
        }
    } else {
        None
    }
}

/// Whether `candidate` is written as a token is.
pub fn is_token(candidate: &str) -> (token: bool)
    ensures
        token == is_uuid_text(candidate@),
{
    is_uuid(candidate)
}

/// What a token was given for, it stands for, until the same token is given
/// again; and it stands for nothing of the other kind.
pub proof fn law_a_token_stands_for_what_it_was_given_for(
    held: Map<Seq<char>, StoredToken>,
    token: Seq<char>,
    value: StoredToken,
    other: Seq<char>,
)
    ensures
        value matches StoredToken::Signal(request) ==> signal_at(held.insert(token, value), token)
            == Some(request) && stream_at(held.insert(token, value), token) is None,
        value matches StoredToken::Hls(stream) ==> stream_at(held.insert(token, value), token)
            == Some(stream) && signal_at(held.insert(token, value), token) is None,
        other != token ==> {
            &&& signal_at(held.insert(token, value), other) == signal_at(held, other)
            &&& stream_at(held.insert(token, value), other) == stream_at(held, other)
        },
{
}

} // verus!
