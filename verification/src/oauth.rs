//! OAuth 2.0 authorization-code flow with PKCE: the request shapes, the
//! authorization URL, the token-endpoint form bodies, PKCE verifier and
//! challenge generation, and the parsing of the loopback callback.
use vstd::prelude::*;
use vstd::string::StringSliceAdditionalSpecFns;
use vstd::utf8::*;

use sha2::{Digest, Sha256};

use crate::encoding::{
    base64url, base64url_encode, lemma_encoded_has_no_separator,
    lemma_percent_roundtrip, percent_decode, percent_decode_str, percent_encode,
    percent_encode_str,
};
use crate::string_map::{lookup, StringMap};
use crate::text::{
    chars_eq, chars_of, copy_string, decimal, join, join_strings, push_char, push_chars,
    push_decimal, push_str_chars, string_from_chars, views,
};

verus! {

// ---------------------------------------------------------------------------
// Types
// ---------------------------------------------------------------------------

/// The OAuth settings of a provider.
#[derive(Debug, Clone, PartialEq, Eq)]
pub struct OAuthConfig {
    pub client_id: String,
    pub authorize_url: String,
    pub token_url: String,
    pub callback_port: Option<u16>,
    pub manual_redirect_url: Option<String>,
    pub scopes: Vec<String>,
}

/// Persisted OAuth access token bundle used by the CLI.
#[derive(Debug, Clone, PartialEq, Eq)]
pub struct OAuthTokenSet {
    pub access_token: String,
    pub refresh_token: Option<String>,
    pub expires_at: Option<u64>,
    pub scopes: Vec<String>,
}

/// Challenge algorithms supported by the local PKCE helpers.
#[derive(Debug, Clone, Copy, PartialEq, Eq, Structural)]
pub enum PkceChallengeMethod {
    S256,
}

impl PkceChallengeMethod {
    /// The method's name as the authorization request carries it.
    pub fn as_str(self) -> (r: &'static str)
        ensures
            r@ == "S256"@,
    {
        match self {
            PkceChallengeMethod::S256 => "S256",
        }
    }
}

/// PKCE verifier/challenge pair generated for an OAuth authorization flow.
#[derive(Debug, Clone, PartialEq, Eq)]
pub struct PkceCodePair {
    pub verifier: String,
    pub challenge: String,
    pub challenge_method: PkceChallengeMethod,
}

/// Parameters needed to build an authorization URL for browser-based login.
#[derive(Debug, Clone, PartialEq, Eq)]
pub struct OAuthAuthorizationRequest {
    pub authorize_url: String,
    pub client_id: String,
    pub redirect_uri: String,
    pub scopes: Vec<String>,
    pub state: String,
    pub code_challenge: String,
    pub code_challenge_method: PkceChallengeMethod,
    pub extra_params: StringMap,
}

/// Request body for exchanging an OAuth authorization code for tokens.
#[derive(Debug, Clone, PartialEq, Eq)]
pub struct OAuthTokenExchangeRequest {
    pub grant_type: &'static str,
    pub code: String,
    pub redirect_uri: String,
    pub client_id: String,
    pub code_verifier: String,
    pub state: String,
}

/// Request body for refreshing an existing OAuth token set.
#[derive(Debug, Clone, PartialEq, Eq)]
pub struct OAuthRefreshRequest {
    pub grant_type: &'static str,
    pub refresh_token: String,
    pub client_id: String,
    pub scopes: Vec<String>,
}

/// Parsed query parameters returned to the local OAuth callback endpoint.
#[derive(Debug, Clone, PartialEq, Eq)]
pub struct OAuthCallbackParams {
    pub code: Option<String>,
    pub state: Option<String>,
    pub error: Option<String>,
    pub error_description: Option<String>,
}

/// The view of an optional string.
pub open spec fn opt_view(o: Option<String>) -> Option<Seq<char>> {
    match o {
        Some(s) => Some(s@),
        None => None,
    }
}

/// Copies a vector of strings.
pub fn copy_strings(v: &Vec<String>) -> (r: Vec<String>)
    ensures
        views(r@) == views(v@),
        r@ == v@,
{
    let mut out: Vec<String> = Vec::new();
    let mut i: usize = 0;
    while i < v.len()
        invariant
            i <= v@.len(),
            out@ == v@.take(i as int),
        decreases v@.len() - i,
    {
        out.push(v[i].clone());
        i = i + 1;
        assert(out@ =~= v@.take(i as int));
    }
    assert(v@.take(v@.len() as int) =~= v@);
    out
}

// ---------------------------------------------------------------------------
// Authorization request and URL
// ---------------------------------------------------------------------------

/// One `key=value` component of a query string, both sides percent-encoded.
pub open spec fn query_component(pair: (Seq<char>, Seq<char>)) -> Seq<char> {
    percent_encode_str(pair.0) + "="@ + percent_encode_str(pair.1)
}

/// A query string: the components joined with `&`.
pub open spec fn query_string(pairs: Seq<(Seq<char>, Seq<char>)>) -> Seq<char> {
    join(pairs.map_values(|p: (Seq<char>, Seq<char>)| query_component(p)), "&"@)
}

/// The parameters of an authorization URL, in the order they appear: the
/// fixed ones, then the extra ones in key order.
pub open spec fn authorization_params(req: &OAuthAuthorizationRequest) -> Seq<(Seq<char>, Seq<char>)> {
    seq![
        ("response_type"@, "code"@),
        ("client_id"@, req.client_id@),
        ("redirect_uri"@, req.redirect_uri@),
        ("scope"@, join(views(req.scopes@), " "@)),
        ("state"@, req.state@),
        ("code_challenge"@, req.code_challenge@),
        ("code_challenge_method"@, "S256"@),
    ] + req.extra_params.pairs()
}

/// The authorization URL: the endpoint, `?` (or `&` when the endpoint
/// already has a query), and the query string.
pub open spec fn authorization_url(req: &OAuthAuthorizationRequest) -> Seq<char> {
    req.authorize_url@ + (if req.authorize_url@.contains('?') {
        "&"@
    } else {
        "?"@
    }) + query_string(authorization_params(req))
}

/// The views of a vector of string pairs.
pub open spec fn pair_views(v: Seq<(String, String)>) -> Seq<(Seq<char>, Seq<char>)> {
    v.map_values(|p: (String, String)| (p.0@, p.1@))
}

/// Renders `key=value` pairs as a query string.
pub fn encode_query(pairs: &Vec<(String, String)>) -> (r: String)
    ensures
        r@ == query_string(pair_views(pairs@)),
{
    let ghost all = pair_views(pairs@);
    let mut out = String::new();
    let mut i: usize = 0;
    while i < pairs.len()
        invariant
            all == pair_views(pairs@),
            i <= pairs@.len(),
            out@ == query_string(all.take(i as int)),
        decreases pairs@.len() - i,
    {
        let ghost before = out@;
        if i > 0 {
            push_char(&mut out, '&');
        }
        let k = percent_encode(pairs[i].0.as_str());
        let v = percent_encode(pairs[i].1.as_str());
        push_str_chars(&mut out, k.as_str());
        push_char(&mut out, '=');
        push_str_chars(&mut out, v.as_str());
        proof {
            let t = all.take(i + 1).map_values(|p: (Seq<char>, Seq<char>)| query_component(p));
            assert(t.drop_last() =~= all.take(i as int).map_values(
                |p: (Seq<char>, Seq<char>)| query_component(p),
            ));
            assert(all[i as int] == (pairs@[i as int].0@, pairs@[i as int].1@));
            assert(t.last() =~= k@ + "="@ + v@) by {
                reveal_strlit("=");
            }
            if i == 0 {
                assert(t.len() == 1);
                assert(out@ =~= t[0]) by {
                    reveal_strlit("=");
                }
            } else {
                assert(out@ =~= before + "&"@ + t.last()) by {
                    reveal_strlit("&");
                    reveal_strlit("=");
                }
            }
        }
        i = i + 1;
    }
    assert(all.take(pairs@.len() as int) =~= all);
    out
}

/// Whether a string contains a character.
pub fn str_contains_char(s: &str, c: char) -> (r: bool)
    ensures
        r == s@.contains(c),
{
    let v = chars_of(s);
    let mut i: usize = 0;
    while i < v.len()
        invariant
            v@ == s@,
            i <= v@.len(),
            forall|j: int| 0 <= j < i ==> v@[j] != c,
        decreases v@.len() - i,
    {
        if v[i] == c {
            assert(s@[i as int] == c);
            return true;
        }
        i = i + 1;
    }
    false
}

fn owned(s: &str) -> (r: String)
    ensures
        r@ == s@,
{
    String::from_str(s)
}

impl OAuthAuthorizationRequest {
    /// The request for a provider's settings, a redirect URI, a state and a
    /// PKCE pair, with no extra parameters.
    pub fn from_config(config: &OAuthConfig, redirect_uri: &str, state: &str, pkce: &PkceCodePair) -> (r: Self)
        ensures
            r.authorize_url@ == config.authorize_url@,
            r.client_id@ == config.client_id@,
            r.redirect_uri@ == redirect_uri@,
            r.scopes@ == config.scopes@,
            r.state@ == state@,
            r.code_challenge@ == pkce.challenge@,
            r.code_challenge_method == pkce.challenge_method,
            r.extra_params.pairs().len() == 0,
    {
        OAuthAuthorizationRequest {
            authorize_url: copy_string(&config.authorize_url),
            client_id: copy_string(&config.client_id),
            redirect_uri: owned(redirect_uri),
            scopes: copy_strings(&config.scopes),
            state: owned(state),
            code_challenge: copy_string(&pkce.challenge),
            code_challenge_method: pkce.challenge_method,
            extra_params: StringMap::new(),
        }
    }

    /// The same request with one more extra parameter (replacing an earlier
    /// value for the same key).
    pub fn with_extra_param(self, key: &str, value: &str) -> (r: Self)
        ensures
            r.authorize_url == self.authorize_url,
            r.client_id == self.client_id,
            r.redirect_uri == self.redirect_uri,
            r.scopes == self.scopes,
            r.state == self.state,
            r.code_challenge == self.code_challenge,
            r.code_challenge_method == self.code_challenge_method,
            r.extra_params.get_spec(key@) == Some(value@),
            forall|k: Seq<char>| k != key@ ==> r.extra_params.get_spec(k) == self.extra_params.get_spec(k),
    {
        let mut this = self;
        this.extra_params.insert(owned(key), owned(value));
        this
    }

    /// The authorization URL the browser is sent to.
    pub fn build_url(&self) -> (r: String)
        ensures
            r@ == authorization_url(self),
    {
        let mut params: Vec<(String, String)> = Vec::new();
        params.push((owned("response_type"), owned("code")));
        params.push((owned("client_id"), copy_string(&self.client_id)));
        params.push((owned("redirect_uri"), copy_string(&self.redirect_uri)));
        params.push((owned("scope"), join_strings(&self.scopes, " ")));
        params.push((owned("state"), copy_string(&self.state)));
        params.push((owned("code_challenge"), copy_string(&self.code_challenge)));
        params.push((owned("code_challenge_method"), owned(self.code_challenge_method.as_str())));
        let ghost fixed = pair_views(params@);
        let n = self.extra_params.len();
        let mut i: usize = 0;
        while i < n
            invariant
                n == self.extra_params.pairs().len(),
                i <= n,
                fixed.len() == 7,
                pair_views(params@) == fixed + self.extra_params.pairs().take(i as int),
            decreases n - i,
        {
            let k = copy_string(self.extra_params.key_at(i));
            let v = copy_string(self.extra_params.value_at(i));
            let ghost before = params@;
            params.push((k, v));
            assert(params@ == before.push((k, v)));
            assert(pair_views(params@) =~= pair_views(before).push((k@, v@)));
            assert(self.extra_params.pairs().take(i + 1) =~= self.extra_params.pairs().take(
                i as int,
            ).push(self.extra_params.pairs()[i as int]));
            assert(pair_views(params@) =~= fixed + self.extra_params.pairs().take(i + 1));
            i = i + 1;
        }
        assert(self.extra_params.pairs().take(n as int) =~= self.extra_params.pairs());
        assert(fixed =~= seq![
            ("response_type"@, "code"@),
            ("client_id"@, self.client_id@),
            ("redirect_uri"@, self.redirect_uri@),
            ("scope"@, join(views(self.scopes@), " "@)),
            ("state"@, self.state@),
            ("code_challenge"@, self.code_challenge@),
            ("code_challenge_method"@, "S256"@),
        ]);
        let query = encode_query(&params);
        let mut url = copy_string(&self.authorize_url);
        if str_contains_char(self.authorize_url.as_str(), '?') {
            push_char(&mut url, '&');
            proof {
                reveal_strlit("&");
            }
        } else {
            push_char(&mut url, '?');
            proof {
                reveal_strlit("?");
            }
        }
        push_str_chars(&mut url, query.as_str());
        assert(url@ =~= authorization_url(self));
        url
    }
}

// ---------------------------------------------------------------------------
// Token endpoint requests
// ---------------------------------------------------------------------------

/// The form body of a code exchange: the value sent for each field name.
pub open spec fn exchange_form(req: &OAuthTokenExchangeRequest, k: Seq<char>) -> Option<Seq<char>> {
    if k == "grant_type"@ {
        Some(req.grant_type@)
    } else if k == "code"@ {
        Some(req.code@)
    } else if k == "redirect_uri"@ {
        Some(req.redirect_uri@)
    } else if k == "client_id"@ {
        Some(req.client_id@)
    } else if k == "code_verifier"@ {
        Some(req.code_verifier@)
    } else if k == "state"@ {
        Some(req.state@)
    } else {
        None
    }
}

/// The form body of a refresh: the value sent for each field name.
pub open spec fn refresh_form(req: &OAuthRefreshRequest, k: Seq<char>) -> Option<Seq<char>> {
    if k == "grant_type"@ {
        Some(req.grant_type@)
    } else if k == "refresh_token"@ {
        Some(req.refresh_token@)
    } else if k == "client_id"@ {
        Some(req.client_id@)
    } else if k == "scope"@ {
        Some(join(views(req.scopes@), " "@))
    } else {
        None
    }
}

/// The lengths of the form field names, which tell them apart.
proof fn lemma_form_field_names()
    ensures
        "grant_type"@.len() == 10,
        "code"@.len() == 4,
        "redirect_uri"@.len() == 12,
        "client_id"@.len() == 9,
        "code_verifier"@.len() == 13,
        "state"@.len() == 5,
        "refresh_token"@.len() == 13,
        "scope"@.len() == 5,
{
    reveal_strlit("grant_type");
    reveal_strlit("code");
    reveal_strlit("redirect_uri");
    reveal_strlit("client_id");
    reveal_strlit("code_verifier");
    reveal_strlit("state");
    reveal_strlit("refresh_token");
    reveal_strlit("scope");
}

impl OAuthTokenExchangeRequest {
    /// The exchange of an authorization code for tokens.
    pub fn from_config(config: &OAuthConfig, code: &str, state: &str, verifier: &str, redirect_uri: &str) -> (r: Self)
        ensures
            r.grant_type@ == "authorization_code"@,
            r.code@ == code@,
            r.redirect_uri@ == redirect_uri@,
            r.client_id@ == config.client_id@,
            r.code_verifier@ == verifier@,
            r.state@ == state@,
    {
        OAuthTokenExchangeRequest {
            grant_type: "authorization_code",
            code: owned(code),
            redirect_uri: owned(redirect_uri),
            client_id: copy_string(&config.client_id),
            code_verifier: owned(verifier),
            state: owned(state),
        }
    }

    /// The form fields posted to the token endpoint.
    pub fn form_params(&self) -> (r: StringMap)
        ensures
            forall|k: Seq<char>| #[trigger] r.get_spec(k) == exchange_form(self, k),
    {
        proof {
            lemma_form_field_names();
        }
        let mut m = StringMap::new();
        m.insert(owned("grant_type"), owned(self.grant_type));
        m.insert(owned("code"), copy_string(&self.code));
        m.insert(owned("redirect_uri"), copy_string(&self.redirect_uri));
        m.insert(owned("client_id"), copy_string(&self.client_id));
        m.insert(owned("code_verifier"), copy_string(&self.code_verifier));
        m.insert(owned("state"), copy_string(&self.state));
        m
    }
}

impl OAuthRefreshRequest {
    /// The refresh of a token set; without scopes, the provider's are asked for.
    pub fn from_config(config: &OAuthConfig, refresh_token: &str, scopes: Option<Vec<String>>) -> (r: Self)
        ensures
            r.grant_type@ == "refresh_token"@,
            r.refresh_token@ == refresh_token@,
            r.client_id@ == config.client_id@,
            r.scopes@ == (match scopes {
                Some(s) => s@,
                None => config.scopes@,
            }),
    {
        let scopes = match scopes {
            Some(s) => s,
            None => copy_strings(&config.scopes),
        };
        OAuthRefreshRequest {
            grant_type: "refresh_token",
            refresh_token: owned(refresh_token),
            client_id: copy_string(&config.client_id),
            scopes,
        }
    }

    /// The form fields posted to the token endpoint.
    pub fn form_params(&self) -> (r: StringMap)
        ensures
            forall|k: Seq<char>| #[trigger] r.get_spec(k) == refresh_form(self, k),
    {
        proof {
            lemma_form_field_names();
        }
        let mut m = StringMap::new();
        m.insert(owned("grant_type"), owned(self.grant_type));
        m.insert(owned("refresh_token"), copy_string(&self.refresh_token));
        m.insert(owned("client_id"), copy_string(&self.client_id));
        m.insert(owned("scope"), join_strings(&self.scopes, " "));
        m
    }
}

// ---------------------------------------------------------------------------
// PKCE, state and the loopback redirect
// ---------------------------------------------------------------------------

/// The SHA-256 digest of a byte sequence.
pub uninterp spec fn sha256_digest(data: Seq<u8>) -> Seq<u8>;

/// `sha2::Sha256::digest`: the digest of `data` is `sha256_digest(data)`,
/// and a SHA-256 digest has 32 bytes.
#[verifier::external_body]
fn sha256(data: &[u8]) -> (r: Vec<u8>)
    ensures
        r@ == sha256_digest(data@),
        r@.len() == 32,
{
    Sha256::digest(data).to_vec()
}

/// The S256 code challenge of a verifier: base64url of the SHA-256 digest
/// of its UTF-8 bytes.
pub open spec fn s256_challenge(verifier: Seq<char>) -> Seq<char> {
    base64url(sha256_digest(encode_utf8(verifier)))
}

/// The S256 code challenge of a PKCE verifier.
pub fn code_challenge_s256(verifier: &str) -> (r: String)
    ensures
        r@ == s256_challenge(verifier@),
        r@.len() == 43,
{
    let digest = sha256(verifier.as_bytes());
    base64url_encode(digest.as_slice())
}

/// The PKCE pair for a given verifier: its S256 challenge.
pub fn pkce_pair_from_verifier(verifier: String) -> (r: PkceCodePair)
    ensures
        r.verifier@ == verifier@,
        r.challenge@ == s256_challenge(verifier@),
        r.challenge@.len() == 43,
        r.challenge_method == PkceChallengeMethod::S256,
{
    let challenge = code_challenge_s256(verifier.as_str());
    PkceCodePair { verifier, challenge, challenge_method: PkceChallengeMethod::S256 }
}

/// The randomness source failed.
#[derive(Debug, Clone, PartialEq, Eq)]
pub struct RandomSourceError {
    pub message: String,
}

/// `getrandom::getrandom`: fills the buffer in place; the buffer keeps its
/// length, and an empty buffer succeeds without asking the random source.
/// The bytes written are not stated: they come from the operating system's
/// random source.
#[verifier::external_body]
fn fill_random(buf: &mut Vec<u8>) -> (r: Result<(), String>)
    ensures
        final(buf)@.len() == old(buf)@.len(),
        old(buf)@.len() == 0 ==> r is Ok,
{
    match getrandom::getrandom(buf.as_mut_slice()) {
        Ok(()) => Ok(()),
        Err(error) => Err(error.to_string()),
    }
}

/// A random token: `bytes` random bytes, base64url-encoded.
pub fn generate_random_token(bytes: usize) -> (r: Result<String, RandomSourceError>)
    ensures
        r matches Ok(s) ==> (exists|b: Seq<u8>| b.len() == bytes && s@ == base64url(b)),
        r matches Ok(s) ==> s@.len() == (4 * bytes + 2) / 3,
        bytes == 0 ==> (r matches Ok(s) && s@.len() == 0),
{
    let mut buffer: Vec<u8> = vec![0u8; bytes];
    match fill_random(&mut buffer) {
        Ok(()) => {
            let token = base64url_encode(buffer.as_slice());
            Ok(token)
        },
        Err(message) => Err(RandomSourceError { message }),
    }
}

/// A fresh PKCE pair: a random 32-byte verifier and its S256 challenge.
pub fn generate_pkce_pair() -> (r: Result<PkceCodePair, RandomSourceError>)
    ensures
        r matches Ok(p) ==> exists|b: Seq<u8>| b.len() == 32 && p.verifier@ == base64url(b),
        r matches Ok(p) ==> (p.verifier@.len() == 43 && p.challenge@ == s256_challenge(p.verifier@)
            && p.challenge@.len() == 43 && p.challenge_method == PkceChallengeMethod::S256),
{
    let verifier = match generate_random_token(32) {
        Ok(v) => v,
        Err(e) => {
            return Err(e);
        },
    };
    assert(verifier@.len() == 43);
    let pair = pkce_pair_from_verifier(verifier);
    assert(pair.verifier@.len() == 43);
    assert(pair.challenge@.len() == 43);
    assert(pair.challenge@ == s256_challenge(pair.verifier@));
    assert(pair.challenge_method == PkceChallengeMethod::S256);
    Ok(pair)
}

/// A fresh OAuth `state` value: 32 random bytes, base64url-encoded.
pub fn generate_state() -> (r: Result<String, RandomSourceError>)
    ensures
        r matches Ok(s) ==> exists|b: Seq<u8>| b.len() == 32 && s@ == base64url(b),
        r matches Ok(s) ==> s@.len() == 43,
{
    generate_random_token(32)
}

/// The redirect URI of the local callback listener.
pub fn loopback_redirect_uri(port: u16) -> (r: String)
    ensures
        r@ == "http://localhost:"@ + decimal(port as nat) + "/callback"@,
{
    let mut uri = owned("http://localhost:");
    push_decimal(&mut uri, port as u64);
    push_str_chars(&mut uri, "/callback");
    uri
}

// ---------------------------------------------------------------------------
// Callback parsing
// ---------------------------------------------------------------------------

/// The index of the first occurrence of `c` in `s`.
pub open spec fn find_char(s: Seq<char>, c: char) -> Option<nat>
    decreases s.len(),
{
    if s.len() == 0 {
        None
    } else if s[0] == c {
        Some(0)
    } else {
        match find_char(s.drop_first(), c) {
            Some(i) => Some(i + 1),
            None => None,
        }
    }
}

/// What [`find_char`] finds.
pub proof fn lemma_find_char(s: Seq<char>, c: char)
    ensures
        find_char(s, c) matches Some(i) ==> i < s.len() && s[i as int] == c && forall|j: int|
            0 <= j < i ==> s[j] != c,
        find_char(s, c) is None ==> forall|j: int| 0 <= j < s.len() ==> s[j] != c,
    decreases s.len(),
{
    if s.len() > 0 {
        lemma_find_char(s.drop_first(), c);
        if s[0] != c {
            assert forall|j: int| 1 <= j < s.len() implies s[j] == s.drop_first()[j - 1] by {}
        }
    }
}

/// `str::split_once(c)`: the parts before and after the first `c`.
pub open spec fn split_once(s: Seq<char>, c: char) -> Option<(Seq<char>, Seq<char>)> {
    match find_char(s, c) {
        Some(i) => Some((s.take(i as int), s.skip(i as int + 1))),
        None => None,
    }
}

/// The non-empty pieces of a query between `&` separators.
pub open spec fn query_pieces(q: Seq<char>) -> Seq<Seq<char>>
    decreases q.len(),
{
    match find_char(q, '&') {
        Some(i) => {
            proof {
                lemma_find_char(q, '&');
            }
            (if i > 0 {
                seq![q.take(i as int)]
            } else {
                Seq::empty()
            }) + query_pieces(q.skip(i as int + 1))
        },
        None => if q.len() > 0 {
            seq![q]
        } else {
            Seq::empty()
        },
    }
}

/// A piece split at its first `=` into key and value (an empty value when
/// there is no `=`).
pub open spec fn piece_key_value(piece: Seq<char>) -> (Seq<char>, Seq<char>) {
    match split_once(piece, '=') {
        Some(kv) => kv,
        None => (piece, Seq::empty()),
    }
}

/// The decoded key and value of one query piece.
pub open spec fn decode_piece_spec(piece: Seq<char>) -> Result<(Seq<char>, Seq<char>), Seq<char>> {
    let (k, v) = piece_key_value(piece);
    match percent_decode_str(k) {
        Err(e) => Err(e),
        Ok(dk) => match percent_decode_str(v) {
            Err(e) => Err(e),
            Ok(dv) => Ok((dk, dv)),
        },
    }
}

/// The decoded (key, value) pairs of query pieces, in order; the first piece
/// whose key or value does not decode makes the result an error.
pub open spec fn decode_pairs(pieces: Seq<Seq<char>>) -> Result<Seq<(Seq<char>, Seq<char>)>, Seq<char>>
    decreases pieces.len(),
{
    if pieces.len() == 0 {
        Ok(Seq::empty())
    } else {
        match decode_pairs(pieces.drop_last()) {
            Err(e) => Err(e),
            Ok(done) => match decode_piece_spec(pieces.last()) {
                Err(e) => Err(e),
                Ok(kv) => Ok(done.push(kv)),
            },
        }
    }
}

/// The decoded pairs of a callback query string.
pub open spec fn callback_pairs(query: Seq<char>) -> Result<Seq<(Seq<char>, Seq<char>)>, Seq<char>> {
    decode_pairs(query_pieces(query))
}

/// The callback parameters read from decoded pairs: for each field, the value
/// of the last pair with that name.
pub open spec fn params_match(p: OAuthCallbackParams, pairs: Seq<(Seq<char>, Seq<char>)>) -> bool {
    &&& opt_view(p.code) == lookup(pairs, "code"@)
    &&& opt_view(p.state) == lookup(pairs, "state"@)
    &&& opt_view(p.error) == lookup(pairs, "error"@)
    &&& opt_view(p.error_description) == lookup(pairs, "error_description"@)
}

/// What parsing a callback query gives: the parameters when every piece
/// decodes, else an error.
pub open spec fn callback_query_result(query: Seq<char>, r: Result<OAuthCallbackParams, String>) -> bool {
    match callback_pairs(query) {
        Ok(pairs) => r matches Ok(p) && params_match(p, pairs),
        Err(e) => r matches Err(m) && m@ == e,
    }
}

proof fn lemma_decode_pairs_err_extends(a: Seq<Seq<char>>, b: Seq<Seq<char>>)
    requires
        decode_pairs(a) is Err,
    ensures
        decode_pairs(a + b) == decode_pairs(a),
    decreases b.len(),
{
    if b.len() == 0 {
        assert(a + b =~= a);
    } else {
        lemma_decode_pairs_err_extends(a, b.drop_last());
        assert((a + b).drop_last() =~= a + b.drop_last());
    }
}

/// A piece that is empty or a singleton.
pub open spec fn keep_piece(p: Seq<char>) -> Seq<Seq<char>> {
    if p.len() > 0 {
        seq![p]
    } else {
        Seq::empty()
    }
}

/// The pieces after the separator at `end`, if there is one.
pub open spec fn pieces_after(q: Seq<char>, end: int) -> Seq<Seq<char>> {
    if end < q.len() {
        query_pieces(q.skip(end + 1))
    } else {
        Seq::empty()
    }
}

proof fn lemma_query_pieces_step(q: Seq<char>, start: int, end: int)
    requires
        0 <= start <= end <= q.len(),
        forall|j: int| start <= j < end ==> q[j] != '&',
        end < q.len() ==> q[end] == '&',
    ensures
        query_pieces(q.skip(start)) == keep_piece(q.subrange(start, end)) + pieces_after(q, end),
{
    let rest = q.skip(start);
    let len = end - start;
    lemma_find_char(rest, '&');
    if end < q.len() {
        assert(rest[len] == q[end]);
        assert(find_char(rest, '&') == Some(len as nat)) by {
            if let Some(i) = find_char(rest, '&') {
                if i < len {
                    assert(rest[i as int] == q[start + i]);
                }
            }
        }
        assert(rest.skip(len + 1) =~= q.skip(end + 1));
        assert(rest.take(len) =~= q.subrange(start, end));
    } else {
        assert(find_char(rest, '&') is None) by {
            if let Some(i) = find_char(rest, '&') {
                assert(rest[i as int] == q[start + i]);
            }
        }
        assert(rest =~= q.subrange(start, end));
        assert(keep_piece(rest) + Seq::<Seq<char>>::empty() =~= keep_piece(rest));
    }
}

fn copy_opt(o: Option<&String>) -> (r: Option<String>)
    ensures
        opt_view(r) == (match o {
            Some(s) => Some(s@),
            None => None::<Seq<char>>,
        }),
{
    match o {
        Some(s) => Some(copy_string(s)),
        None => None,
    }
}

/// The first index at or after `start` holding `c`, or the length.
fn next_separator(chars: &[char], start: usize, c: char) -> (end: usize)
    requires
        start <= chars@.len(),
    ensures
        start <= end <= chars@.len(),
        forall|j: int| start <= j < end ==> chars@[j] != c,
        end < chars@.len() ==> chars@[end as int] == c,
{
    let mut end: usize = start;
    while end < chars.len() && chars[end] != c
        invariant
            start <= end <= chars@.len(),
            forall|j: int| start <= j < end ==> chars@[j] != c,
        decreases chars@.len() - end,
    {
        end = end + 1;
    }
    end
}

/// Splits a string at the first `c`: the parts before and after it.
fn split_once_chars(chars: &[char], c: char) -> (r: Option<(String, String)>)
    ensures
        match split_once(chars@, c) {
            Some(parts) => r matches Some(x) && x.0@ == parts.0 && x.1@ == parts.1,
            None => r is None,
        },
{
    proof {
        lemma_find_char(chars@, c);
    }
    let at = next_separator(chars, 0, c);
    if at < chars.len() {
        assert(find_char(chars@, c) == Some(at as nat)) by {
            if let Some(i) = find_char(chars@, c) {
                if i < at {
                }
            }
        }
        let before = string_from_chars(vstd::slice::slice_subrange(chars, 0, at));
        let after = string_from_chars(vstd::slice::slice_subrange(chars, at + 1, chars.len()));
        assert(before@ =~= chars@.take(at as int));
        assert(after@ =~= chars@.skip(at + 1));
        Some((before, after))
    } else {
        assert(find_char(chars@, c) is None) by {
            if let Some(i) = find_char(chars@, c) {
                assert(chars@[i as int] == c);
            }
        }
        None
    }
}

fn decode_piece(piece: &[char]) -> (r: Result<(String, String), String>)
    ensures
        match decode_piece_spec(piece@) {
            Ok(kv) => r matches Ok(x) && x.0@ == kv.0 && x.1@ == kv.1,
            Err(e) => r matches Err(m) && m@ == e,
        },
{
    let (key, value) = match split_once_chars(piece, '=') {
        Some(kv) => kv,
        None => (string_from_chars(piece), String::new()),
    };
    assert(key@ =~= piece_key_value(piece@).0);
    assert(value@ =~= piece_key_value(piece@).1);
    let dk = match percent_decode(key.as_str()) {
        Ok(d) => d,
        Err(m) => {
            return Err(m);
        },
    };
    let dv = match percent_decode(value.as_str()) {
        Ok(d) => d,
        Err(m) => {
            return Err(m);
        },
    };
    Ok((dk, dv))
}

/// Parses the query string the browser sends to the callback endpoint.
pub fn parse_oauth_callback_query(query: &str) -> (r: Result<OAuthCallbackParams, String>)
    ensures
        callback_query_result(query@, r),
{
    let chars = chars_of(query);
    let ghost q = query@;
    let mut params = StringMap::new();
    let ghost mut done_pieces: Seq<Seq<char>> = Seq::empty();
    let ghost mut done: Seq<(Seq<char>, Seq<char>)> = Seq::empty();
    let mut start: usize = 0;
    assert(q.skip(0) =~= q);
    assert(done_pieces + query_pieces(q.skip(0)) =~= query_pieces(q));
    loop
        invariant_except_break
            query_pieces(q) == done_pieces + query_pieces(q.skip(start as int)),
        invariant
            q == query@,
            chars@ == q,
            start <= q.len(),
            decode_pairs(done_pieces) == Ok::<Seq<(Seq<char>, Seq<char>)>, Seq<char>>(done),
            forall|k: Seq<char>| #[trigger] params.get_spec(k) == lookup(done, k),
        ensures
            query_pieces(q) == done_pieces,
        decreases q.len() - start,
    {
        let end = next_separator(chars.as_slice(), start, '&');
        let ghost piece = q.subrange(start as int, end as int);
        proof {
            lemma_query_pieces_step(q, start as int, end as int);
            assert(query_pieces(q) =~= done_pieces + keep_piece(piece) + pieces_after(q, end as int));
        }
        if end > start {
            let slice = vstd::slice::slice_subrange(chars.as_slice(), start, end);
            let ghost np = done_pieces.push(piece);
            assert(np.drop_last() =~= done_pieces);
            match decode_piece(slice) {
                Ok(kv) => {
                    let (k, v) = kv;
                    params.insert(k, v);
                    proof {
                        let nd = done.push((k@, v@));
                        assert(nd.drop_last() =~= done);
                        done_pieces = np;
                        done = nd;
                    }
                },
                Err(message) => {
                    proof {
                        assert(done_pieces + keep_piece(piece) =~= np);
                        assert(np.last() == piece);
                        assert(decode_piece_spec(piece) is Err);
                        assert(slice@ == piece);
                        assert(decode_piece_spec(piece) is Err);
                        lemma_decode_pairs_err_extends(np, pieces_after(q, end as int));
                        assert(query_pieces(q) == np + pieces_after(q, end as int));
                        if let Err(e) = decode_piece_spec(piece) {
                            assert(decode_pairs(np) == Err::<Seq<(Seq<char>, Seq<char>)>, Seq<char>>(e));
                            assert(message@ == e);
                            assert(callback_pairs(q) == Err::<Seq<(Seq<char>, Seq<char>)>, Seq<char>>(e));
                        }
                    }
                    return Err(message);
                },
            }
        }
        if end == chars.len() {
            assert(done_pieces + Seq::<Seq<char>>::empty() =~= done_pieces);
            break;
        }
        start = end + 1;
    }
    let code = copy_opt(params.get("code"));
    let state = copy_opt(params.get("state"));
    let error = copy_opt(params.get("error"));
    let error_description = copy_opt(params.get("error_description"));
    Ok(OAuthCallbackParams { code, state, error, error_description })
}

/// The path and query of a request target (`path?query`).
pub open spec fn target_parts(target: Seq<char>) -> (Seq<char>, Seq<char>) {
    match split_once(target, '?') {
        Some(pq) => pq,
        None => (target, Seq::empty()),
    }
}

/// Parses the request target of the callback request: the path must be
/// `/callback`, and its query is parsed as by [`parse_oauth_callback_query`].
pub fn parse_oauth_callback_request_target(target: &str) -> (r: Result<OAuthCallbackParams, String>)
    ensures
        target_parts(target@).0 != "/callback"@ ==> (r matches Err(m) && m@
            == "unexpected callback path: "@ + target_parts(target@).0),
        target_parts(target@).0 == "/callback"@ ==> callback_query_result(target_parts(target@).1, r),
{
    let chars = chars_of(target);
    let (path, query) = match split_once_chars(chars.as_slice(), '?') {
        Some(pq) => pq,
        None => (string_from_chars(chars.as_slice()), String::new()),
    };
    assert(path@ =~= target_parts(target@).0);
    assert(query@ =~= target_parts(target@).1);
    let expected = chars_of("/callback");
    let path_chars = chars_of(path.as_str());
    if !chars_eq(path_chars.as_slice(), expected.as_slice()) {
        let mut message = owned("unexpected callback path: ");
        push_chars(&mut message, path_chars.as_slice());
        return Err(message);
    }
    parse_oauth_callback_query(query.as_str())
}

// ---------------------------------------------------------------------------
// Reading back an encoded query
// ---------------------------------------------------------------------------

/// The first `c` of `a + b` is where `b` starts, when `a` holds no `c` and
/// `b` starts with one.
proof fn lemma_find_char_after(a: Seq<char>, b: Seq<char>, c: char)
    requires
        forall|j: int| 0 <= j < a.len() ==> a[j] != c,
        b.len() > 0,
        b[0] == c,
    ensures
        find_char(a + b, c) == Some(a.len()),
{
    let s = a + b;
    lemma_find_char(s, c);
    assert(s[a.len() as int] == c);
    if let Some(i) = find_char(s, c) {
        if (i as int) < a.len() {
            assert(s[i as int] == a[i as int]);
        }
    }
}

/// `join` seen from the front.
proof fn lemma_join_front(cs: Seq<Seq<char>>, sep: Seq<char>)
    requires
        cs.len() >= 2,
    ensures
        join(cs, sep) == cs[0] + sep + join(cs.drop_first(), sep),
    decreases cs.len(),
{
    if cs.len() == 2 {
        assert(cs.drop_last().len() == 1);
        assert(cs.drop_first().len() == 1);
        assert(cs.drop_last()[0] == cs[0]);
        assert(cs.drop_first()[0] == cs.last());
        assert(join(cs.drop_last(), sep) == cs[0]);
        assert(join(cs.drop_first(), sep) == cs.last());
        assert(join(cs, sep) =~= cs[0] + sep + join(cs.drop_first(), sep));
    } else {
        let init = cs.drop_last();
        lemma_join_front(init, sep);
        assert(cs.drop_first().drop_last() =~= init.drop_first());
        assert(cs.drop_first().last() == cs.last());
        assert(init[0] == cs[0]);
        assert(join(cs, sep) =~= cs[0] + sep + join(cs.drop_first(), sep));
    }
}

/// The pieces of components joined with `&` are the components, when each
/// is non-empty and holds no `&`.
proof fn lemma_pieces_of_join(cs: Seq<Seq<char>>)
    requires
        forall|i: int| 0 <= i < cs.len() ==> #[trigger] cs[i].len() > 0,
        forall|i: int, j: int| 0 <= i < cs.len() && 0 <= j < cs[i].len() ==> #[trigger] cs[i][j] != '&',
    ensures
        query_pieces(join(cs, "&"@)) == cs,
    decreases cs.len(),
{
    reveal_strlit("&");
    if cs.len() == 0 {
        lemma_find_char(Seq::<char>::empty(), '&');
        assert(query_pieces(join(cs, "&"@)) =~= cs);
    } else if cs.len() == 1 {
        let c0 = cs[0];
        lemma_find_char(c0, '&');
        if let Some(i) = find_char(c0, '&') {
            assert(cs[0][i as int] != '&');
        }
        assert(query_pieces(join(cs, "&"@)) =~= cs);
    } else {
        let c0 = cs[0];
        let rest = cs.drop_first();
        lemma_join_front(cs, "&"@);
        let tail = join(rest, "&"@);
        let s = join(cs, "&"@);
        assert(s =~= c0 + ("&"@ + tail));
        assert forall|j: int| 0 <= j < c0.len() implies c0[j] != '&' by {
            assert(cs[0][j] != '&');
        }
        lemma_find_char_after(c0, "&"@ + tail, '&');
        assert(s.take(c0.len() as int) =~= c0);
        assert(s.skip(c0.len() as int + 1) =~= tail);
        assert forall|i: int| 0 <= i < rest.len() implies #[trigger] rest[i].len() > 0 by {
            assert(rest[i] == cs[i + 1]);
        }
        assert forall|i: int, j: int| 0 <= i < rest.len() && 0 <= j < rest[i].len() implies #[trigger] rest[i][j]
            != '&' by {
            assert(rest[i] == cs[i + 1]);
            assert(cs[i + 1][j] != '&');
        }
        lemma_pieces_of_join(rest);
        assert(cs =~= seq![c0] + rest);
    }
}

/// One encoded `key=value` component decodes to its pair.
proof fn lemma_decode_component(p: (Seq<char>, Seq<char>))
    ensures
        decode_piece_spec(query_component(p)) == Ok::<(Seq<char>, Seq<char>), Seq<char>>(p),
{
    reveal_strlit("=");
    let ek = percent_encode_str(p.0);
    let ev = percent_encode_str(p.1);
    lemma_encoded_has_no_separator(p.0);
    let piece = query_component(p);
    assert(piece =~= ek + ("="@ + ev));
    assert forall|j: int| 0 <= j < ek.len() implies ek[j] != '=' by {
        assert(percent_encode_str(p.0)[j] != '=');
    }
    lemma_find_char_after(ek, "="@ + ev, '=');
    assert(piece.take(ek.len() as int) =~= ek);
    assert(piece.skip(ek.len() as int + 1) =~= ev);
    lemma_percent_roundtrip(p.0);
    lemma_percent_roundtrip(p.1);
}

/// Encoded components decode to their pairs, in order.
proof fn lemma_decode_components(ps: Seq<(Seq<char>, Seq<char>)>)
    ensures
        decode_pairs(ps.map_values(|p: (Seq<char>, Seq<char>)| query_component(p))) == Ok::<
            Seq<(Seq<char>, Seq<char>)>,
            Seq<char>,
        >(ps),
    decreases ps.len(),
{
    let pieces = ps.map_values(|p: (Seq<char>, Seq<char>)| query_component(p));
    if ps.len() > 0 {
        let init = ps.drop_last();
        lemma_decode_components(init);
        assert(pieces.drop_last() =~= init.map_values(|p: (Seq<char>, Seq<char>)| query_component(p)));
        assert(pieces.last() == query_component(ps.last()));
        lemma_decode_component(ps.last());
        assert(init.push(ps.last()) =~= ps);
    } else {
        assert(ps =~= Seq::<(Seq<char>, Seq<char>)>::empty());
    }
}

/// Splitting and decoding a query string reads back exactly the
/// (key, value) pairs it encodes, in order: the callback parser undoes the
/// query encoder.
pub proof fn lemma_query_round_trip(ps: Seq<(Seq<char>, Seq<char>)>)
    ensures
        callback_pairs(query_string(ps)) == Ok::<Seq<(Seq<char>, Seq<char>)>, Seq<char>>(ps),
{
    reveal_strlit("=");
    let cs = ps.map_values(|p: (Seq<char>, Seq<char>)| query_component(p));
    assert forall|i: int| 0 <= i < cs.len() implies #[trigger] cs[i].len() > 0 by {
        assert(cs[i] == query_component(ps[i]));
    }
    assert forall|i: int, j: int| 0 <= i < cs.len() && 0 <= j < cs[i].len() implies #[trigger] cs[i][j] != '&' by {
        let ek = percent_encode_str(ps[i].0);
        let ev = percent_encode_str(ps[i].1);
        lemma_encoded_has_no_separator(ps[i].0);
        lemma_encoded_has_no_separator(ps[i].1);
        assert(cs[i] == query_component(ps[i]));
        assert(cs[i] =~= ek + ("="@ + ev));
        if j < ek.len() {
            assert(cs[i][j] == ek[j]);
        } else if j > ek.len() {
            assert(cs[i][j] == ev[j - ek.len() - 1]);
        }
    }
    lemma_pieces_of_join(cs);
    lemma_decode_components(ps);
}

/// Parsing a callback query made of encoded (key, value) pairs succeeds, and
/// each parameter is the value of the last pair with its name.
pub proof fn lemma_parse_encoded_query(ps: Seq<(Seq<char>, Seq<char>)>, r: Result<OAuthCallbackParams, String>)
    requires
        callback_query_result(query_string(ps), r),
    ensures
        r matches Ok(p) && params_match(p, ps),
{
    lemma_query_round_trip(ps);
}

} // verus!
