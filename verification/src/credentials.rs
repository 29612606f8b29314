//! Saved credentials: where the credential files live, and how saved API keys
//! and OAuth tokens are read from, written into and removed from the JSON
//! documents of those files.  Reading and writing the files is left to the
//! caller; these functions work on the parsed documents.
use vstd::prelude::*;

use crate::json::{JsonObject, JsonValue};
use crate::text::{chars_of, copy_string, is_whitespace, push_str_chars, string_from_chars, trim, trim_str, views};

verus! {

// ---------------------------------------------------------------------------
// Errors
// ---------------------------------------------------------------------------

/// Why a credential operation failed.
#[derive(Debug, Clone, Copy, PartialEq, Eq, Structural)]
pub enum CredentialsError {
    /// The API key is empty once whitespace is trimmed.
    EmptyApiKey,
    /// The `providers` member of the provider-auth document is no object.
    ProvidersNotObject,
    /// The member of a provider in `providers` is no object.
    ProviderEntryNotObject,
    /// A credential document is no JSON object.
    DocumentNotObject,
    /// No user home directory could be determined.
    HomeNotFound,
}

impl CredentialsError {
    /// The error's message.
    pub fn message(&self) -> (m: String)
        ensures
            m@ == credentials_error_message(*self),
    {
        match self {
            CredentialsError::EmptyApiKey => String::from_str("api key must not be empty"),
            CredentialsError::ProvidersNotObject => String::from_str(
                "provider-auth.json field 'providers' must be a JSON object",
            ),
            CredentialsError::ProviderEntryNotObject => String::from_str(
                "provider-auth.json provider entry must be a JSON object",
            ),
            CredentialsError::DocumentNotObject => String::from_str(
                "credentials file must contain a JSON object",
            ),
            CredentialsError::HomeNotFound => String::from_str(
                "could not determine the user home directory from HOME, USERPROFILE, or HOMEDRIVE/HOMEPATH",
            ),
        }
    }
}

/// The message of each error.
pub open spec fn credentials_error_message(e: CredentialsError) -> Seq<char> {
    match e {
        CredentialsError::EmptyApiKey => "api key must not be empty"@,
        CredentialsError::ProvidersNotObject => "provider-auth.json field 'providers' must be a JSON object"@,
        CredentialsError::ProviderEntryNotObject => "provider-auth.json provider entry must be a JSON object"@,
        CredentialsError::DocumentNotObject => "credentials file must contain a JSON object"@,
        CredentialsError::HomeNotFound => "could not determine the user home directory from HOME, USERPROFILE, or HOMEDRIVE/HOMEPATH"@,
    }
}

// ---------------------------------------------------------------------------
// Locations
// ---------------------------------------------------------------------------

/// The environment variables that locate the credential files.
#[derive(Debug, Clone, PartialEq, Eq)]
pub struct HomeEnv {
    pub claw_config_home: Option<String>,
    pub home: Option<String>,
    pub userprofile: Option<String>,
    pub homedrive: Option<String>,
    pub homepath: Option<String>,
}

/// The user's home directory: `HOME`, else `USERPROFILE`, else `HOMEDRIVE`
/// followed by `HOMEPATH`.
pub open spec fn user_home(env: HomeEnv) -> Option<Seq<char>> {
    match env.home {
        Some(h) => Some(h@),
        None => match env.userprofile {
            Some(u) => Some(u@),
            None => match (env.homedrive, env.homepath) {
                (Some(d), Some(p)) => Some(d@ + p@),
                _ => None,
            },
        },
    }
}

/// The directory of the credential files, as path components:
/// `CLAW_CONFIG_HOME`, else `.claw` in the user's home directory.
pub open spec fn credentials_home(env: HomeEnv) -> Option<Seq<Seq<char>>> {
    match env.claw_config_home {
        Some(c) => Some(seq![c@]),
        None => match user_home(env) {
            Some(h) => Some(seq![h, ".claw"@]),
            None => None,
        },
    }
}

/// The path components of the directory holding the credential files.
pub fn credentials_home_dir(env: &HomeEnv) -> (r: Result<Vec<String>, CredentialsError>)
    ensures
        match credentials_home(*env) {
            Some(c) => r matches Ok(v) && views(v@) == c,
            None => r == Err::<Vec<String>, CredentialsError>(CredentialsError::HomeNotFound),
        },
{
    let mut out: Vec<String> = Vec::new();
    match &env.claw_config_home {
        Some(c) => {
            out.push(copy_string(c));
            assert(views(out@) =~= seq![c@]);
            return Ok(out);
        },
        None => {},
    }
    let home = match &env.home {
        Some(h) => copy_string(h),
        None => match &env.userprofile {
            Some(u) => copy_string(u),
            None => match (&env.homedrive, &env.homepath) {
                (Some(d), Some(p)) => {
                    let mut joined = copy_string(d);
                    push_str_chars(&mut joined, p.as_str());
                    joined
                },
                _ => {
                    return Err(CredentialsError::HomeNotFound);
                },
            },
        },
    };
    out.push(home);
    out.push(String::from_str(".claw"));
    assert(views(out@) =~= seq![user_home(*env).unwrap(), ".claw"@]);
    Ok(out)
}

fn credential_file_path(env: &HomeEnv, file: &str) -> (r: Result<Vec<String>, CredentialsError>)
    ensures
        match credentials_home(*env) {
            Some(c) => r matches Ok(v) && views(v@) == c.push(file@),
            None => r == Err::<Vec<String>, CredentialsError>(CredentialsError::HomeNotFound),
        },
{
    let mut dir = credentials_home_dir(env)?;
    let ghost before = views(dir@);
    dir.push(String::from_str(file));
    assert(views(dir@) =~= before.push(file@));
    Ok(dir)
}

/// The path components of `credentials.json`, which holds the OAuth tokens.
pub fn credentials_path(env: &HomeEnv) -> (r: Result<Vec<String>, CredentialsError>)
    ensures
        match credentials_home(*env) {
            Some(c) => r matches Ok(v) && views(v@) == c.push("credentials.json"@),
            None => r == Err::<Vec<String>, CredentialsError>(CredentialsError::HomeNotFound),
        },
{
    credential_file_path(env, "credentials.json")
}

/// The path components of `provider-auth.json`, which holds saved API keys.
pub fn provider_auth_path(env: &HomeEnv) -> (r: Result<Vec<String>, CredentialsError>)
    ensures
        match credentials_home(*env) {
            Some(c) => r matches Ok(v) && views(v@) == c.push("provider-auth.json"@),
            None => r == Err::<Vec<String>, CredentialsError>(CredentialsError::HomeNotFound),
        },
{
    credential_file_path(env, "provider-auth.json")
}

// ---------------------------------------------------------------------------
// Documents
// ---------------------------------------------------------------------------

/// Whether a credential file's text stands for an empty document (it is
/// empty or whitespace only).
pub fn is_blank_document(contents: &str) -> (r: bool)
    ensures
        r == (trim(contents@).len() == 0),
{
    trim_str(contents).len() == 0
}

/// The root object of a parsed credential document.
pub fn document_root(value: JsonValue) -> (r: Result<JsonObject, CredentialsError>)
    ensures
        match value {
            JsonValue::Object(o) => r == Ok::<JsonObject, CredentialsError>(o),
            _ => r == Err::<JsonObject, CredentialsError>(CredentialsError::DocumentNotObject),
        },
{
    match value {
        JsonValue::Object(o) => Ok(o),
        _ => Err(CredentialsError::DocumentNotObject),
    }
}

/// Whether writing a document removes the file instead: when it is empty.
pub fn removes_file(root: &JsonObject) -> (r: bool)
    ensures
        r == root.is_empty_spec(),
{
    root.is_empty()
}

/// The object a member holds, if it holds one.
pub open spec fn as_object(v: Option<JsonValue>) -> Option<JsonObject> {
    match v {
        Some(JsonValue::Object(o)) => Some(o),
        _ => None,
    }
}

/// The member `key` of the object that member `name` of `root` holds.
pub open spec fn child(root: JsonObject, name: Seq<char>, key: Seq<char>) -> Option<JsonValue> {
    match as_object(root.get_spec(name)) {
        Some(o) => o.get_spec(key),
        None => None,
    }
}

// ---------------------------------------------------------------------------
// Saved API keys
// ---------------------------------------------------------------------------

/// Providers whose API keys can be saved.
#[derive(Debug, Clone, Copy, PartialEq, Eq, Structural)]
pub enum SavedApiKeyProvider {
    Anthropic,
    OpenAi,
    OpenRouter,
    Xai,
}

/// The member name of each provider in the `providers` object.
pub open spec fn provider_key(p: SavedApiKeyProvider) -> Seq<char> {
    match p {
        SavedApiKeyProvider::Anthropic => "anthropic"@,
        SavedApiKeyProvider::OpenAi => "openai"@,
        SavedApiKeyProvider::OpenRouter => "openrouter"@,
        SavedApiKeyProvider::Xai => "xai"@,
    }
}

impl SavedApiKeyProvider {
    /// The provider's member name in the `providers` object.
    pub fn key(self) -> (r: &'static str)
        ensures
            r@ == provider_key(self),
    {
        match self {
            SavedApiKeyProvider::Anthropic => "anthropic",
            SavedApiKeyProvider::OpenAi => "openai",
            SavedApiKeyProvider::OpenRouter => "openrouter",
            SavedApiKeyProvider::Xai => "xai",
        }
    }
}

/// Different providers have different member names.
pub proof fn lemma_provider_keys_distinct(p: SavedApiKeyProvider, q: SavedApiKeyProvider)
    ensures
        p != q ==> provider_key(p) != provider_key(q),
{
    reveal_strlit("anthropic");
    reveal_strlit("openai");
    reveal_strlit("openrouter");
    reveal_strlit("xai");
    assert("anthropic"@.len() == 9);
    assert("openai"@.len() == 6);
    assert("openrouter"@.len() == 10);
    assert("xai"@.len() == 3);
}

/// The saved API key of a provider in a provider-auth document: the text
/// member `apiKey` of the provider's object in `providers`, trimmed, when
/// that is not empty.
pub open spec fn saved_api_key(root: JsonObject, p: SavedApiKeyProvider) -> Option<Seq<char>> {
    match as_object(root.get_spec("providers"@)) {
        Some(ps) => match as_object(ps.get_spec(provider_key(p))) {
            Some(entry) => match entry.get_spec("apiKey"@) {
                Some(JsonValue::Str(s)) => if trim(s@).len() > 0 {
                    Some(trim(s@))
                } else {
                    None
                },
                _ => None,
            },
            None => None,
        },
        None => None,
    }
}

/// Reads a provider's saved API key from a provider-auth document.
pub fn load_saved_api_key(root: &JsonObject, provider: SavedApiKeyProvider) -> (r: Option<String>)
    ensures
        match r {
            Some(s) => saved_api_key(*root, provider) == Some(s@),
            None => saved_api_key(*root, provider) is None,
        },
{
    let providers = match root.get("providers") {
        Some(JsonValue::Object(o)) => o,
        _ => {
            return None;
        },
    };
    let entry = match providers.get(provider.key()) {
        Some(JsonValue::Object(o)) => o,
        _ => {
            return None;
        },
    };
    match entry.get("apiKey") {
        Some(JsonValue::Str(s)) => {
            let t = trim_str(s.as_str());
            if t.len() == 0 {
                None
            } else {
                Some(string_from_chars(t.as_slice()))
            }
        },
        _ => None,
    }
}

/// Why saving `api_key` for a provider into `root` fails, if it does.
pub open spec fn save_api_key_error(root: JsonObject, p: SavedApiKeyProvider, api_key: Seq<char>) -> Option<CredentialsError> {
    if trim(api_key).len() == 0 {
        Some(CredentialsError::EmptyApiKey)
    } else if root.get_spec("providers"@) is Some && as_object(root.get_spec("providers"@)) is None {
        Some(CredentialsError::ProvidersNotObject)
    } else if child(root, "providers"@, provider_key(p)) is Some && as_object(
        child(root, "providers"@, provider_key(p)),
    ) is None {
        Some(CredentialsError::ProviderEntryNotObject)
    } else {
        None
    }
}

/// The document after saving `key` as a provider's API key: `version` is 1,
/// the provider's object in `providers` has `apiKey` set to `key`, and every
/// other member, at each of the three levels, is as it was.
pub open spec fn saved_into(root: JsonObject, p: SavedApiKeyProvider, key: Seq<char>, n: JsonObject) -> bool {
    &&& n.get_spec("version"@) matches Some(JsonValue::Number(v)) && v@ == "1"@
    &&& forall|k: Seq<char>|
        k != "version"@ && k != "providers"@ ==> #[trigger] n.get_spec(k) == root.get_spec(k)
    &&& as_object(n.get_spec("providers"@)) matches Some(ps) && {
        &&& forall|k: Seq<char>|
            k != provider_key(p) ==> #[trigger] ps.get_spec(k) == child(root, "providers"@, k)
        &&& as_object(ps.get_spec(provider_key(p))) matches Some(entry) && {
            &&& entry.get_spec("apiKey"@) matches Some(JsonValue::Str(s)) && s@ == key
            &&& forall|k: Seq<char>|
                k != "apiKey"@ ==> #[trigger] entry.get_spec(k) == (match as_object(
                    child(root, "providers"@, provider_key(p)),
                ) {
                    Some(old_entry) => old_entry.get_spec(k),
                    None => None,
                })
        }
    }
}

/// Saves a provider's API key (trimmed) into a provider-auth document.
pub fn save_api_key(root: JsonObject, provider: SavedApiKeyProvider, api_key: &str) -> (r: Result<JsonObject, CredentialsError>)
    ensures
        match save_api_key_error(root, provider, api_key@) {
            Some(e) => r == Err::<JsonObject, CredentialsError>(e),
            None => r matches Ok(n) && saved_into(root, provider, trim(api_key@), n),
        },
{
    proof {
        reveal_strlit("version");
        reveal_strlit("providers");
        assert("version"@.len() == 7);
        assert("providers"@.len() == 9);
    }
    let trimmed = trim_str(api_key);
    if trimmed.len() == 0 {
        return Err(CredentialsError::EmptyApiKey);
    }
    let ghost old_root = root;
    let mut root = root;
    root.insert(String::from_str("version"), JsonValue::Number(String::from_str("1")));
    let mut providers = match root.remove("providers") {
        None => JsonObject::new(),
        Some(JsonValue::Object(o)) => o,
        Some(_) => {
            return Err(CredentialsError::ProvidersNotObject);
        },
    };
    let ghost old_providers = providers;
    let key = provider.key();
    let mut entry = match providers.remove(key) {
        None => JsonObject::new(),
        Some(JsonValue::Object(o)) => o,
        Some(_) => {
            return Err(CredentialsError::ProviderEntryNotObject);
        },
    };
    let ghost old_entry = entry;
    entry.insert(String::from_str("apiKey"), JsonValue::Str(string_from_chars(trimmed.as_slice())));
    providers.insert(String::from_str(key), JsonValue::Object(entry));
    root.insert(String::from_str("providers"), JsonValue::Object(providers));
    Ok(root)
}

/// Whether removing `apiKey` leaves the provider's object empty.
pub open spec fn entry_emptied(ps: JsonObject, pk: Seq<char>) -> bool {
    as_object(ps.get_spec(pk)) matches Some(e) && forall|k: Seq<char>|
        k != "apiKey"@ ==> #[trigger] e.get_spec(k) is None
}

/// Whether `providers` is left empty once the provider's key is cleared.
pub open spec fn providers_left_empty(ps: JsonObject, pk: Seq<char>) -> bool {
    &&& forall|k: Seq<char>| k != pk ==> #[trigger] ps.get_spec(k) is None
    &&& entry_emptied(ps, pk) || ps.get_spec(pk) is None
}

/// The provider's member of `providers` once its key is cleared: gone when
/// its object is left empty, else its object without `apiKey`; a member
/// that is no object stays as it is.
pub open spec fn provider_after_clear(ps: JsonObject, pk: Seq<char>, nps: JsonObject) -> bool {
    match as_object(ps.get_spec(pk)) {
        Some(e) => if entry_emptied(ps, pk) {
            nps.get_spec(pk) is None
        } else {
            as_object(nps.get_spec(pk)) matches Some(ne) && ne.get_spec("apiKey"@) is None
                && forall|k: Seq<char>| k != "apiKey"@ ==> #[trigger] ne.get_spec(k) == e.get_spec(k)
        },
        None => nps.get_spec(pk) == ps.get_spec(pk),
    }
}

/// The document after removing a provider's saved API key, given that its
/// `providers` member is the object `ps`: `apiKey` leaves the provider's
/// object, an object left empty leaves `providers`, a `providers` left empty
/// leaves the document, and then a `version` left alone leaves it too.
pub open spec fn cleared_from(root: JsonObject, ps: JsonObject, p: SavedApiKeyProvider, n: JsonObject) -> bool {
    let pk = provider_key(p);
    if providers_left_empty(ps, pk) {
        &&& n.get_spec("providers"@) is None
        &&& forall|k: Seq<char>|
            k != "providers"@ && k != "version"@ ==> #[trigger] n.get_spec(k) == root.get_spec(k)
        &&& if (forall|k: Seq<char>|
            #[trigger] root.get_spec(k) is Some ==> k == "version"@ || k == "providers"@) {
            n.get_spec("version"@) is None
        } else {
            n.get_spec("version"@) == root.get_spec("version"@)
        }
    } else {
        &&& as_object(n.get_spec("providers"@)) matches Some(nps) && {
            &&& forall|k: Seq<char>| k != pk ==> #[trigger] nps.get_spec(k) == ps.get_spec(k)
            &&& provider_after_clear(ps, pk, nps)
        }
        &&& forall|k: Seq<char>| k != "providers"@ ==> #[trigger] n.get_spec(k) == root.get_spec(k)
    }
}

/// Removes a provider's saved API key from a provider-auth document.  `None`
/// when the document has no `providers` object: nothing is to be written.
pub fn clear_saved_api_key(root: JsonObject, provider: SavedApiKeyProvider) -> (r: Option<JsonObject>)
    ensures
        match as_object(root.get_spec("providers"@)) {
            Some(ps) => r matches Some(n) && cleared_from(root, ps, provider, n),
            None => r is None,
        },
{
    proof {
        reveal_strlit("version");
        reveal_strlit("providers");
        assert("version"@.len() == 7);
        assert("providers"@.len() == 9);
    }
    let ghost old_root = root;
    let mut root = root;
    let mut providers = match root.remove("providers") {
        Some(JsonValue::Object(o)) => o,
        _ => {
            return None;
        },
    };
    let ghost ps = providers;
    let key = provider.key();
    match providers.remove(key) {
        Some(JsonValue::Object(entry)) => {
            let ghost old_entry = entry;
            let mut entry = entry;
            entry.remove("apiKey");
            if !entry.is_empty() {
                providers.insert(String::from_str(key), JsonValue::Object(entry));
            } else {
                assert forall|k: Seq<char>| k != "apiKey"@ implies #[trigger] old_entry.get_spec(k) is None by {
                    assert(entry.get_spec(k) is None);
                }
            }
        },
        Some(other) => {
            providers.insert(String::from_str(key), other);
        },
        None => {},
    }
    let ghost nps = providers;
    assert(provider_after_clear(ps, key@, nps));
    assert(nps.is_empty_spec() <==> providers_left_empty(ps, key@)) by {
        if nps.is_empty_spec() {
            assert forall|k: Seq<char>| k != key@ implies #[trigger] ps.get_spec(k) is None by {
                assert(nps.get_spec(k) is None);
            }
            assert(nps.get_spec(key@) is None);
        }
        if providers_left_empty(ps, key@) {
            assert forall|k: Seq<char>| #[trigger] nps.get_spec(k) is None by {
                if k != key@ {
                    assert(ps.get_spec(k) is None);
                }
            }
        }
    }
    if providers.is_empty() {
        let ghost mid = root;
        let only_version = root.has_only_member("version");
        assert(only_version <==> (forall|k: Seq<char>|
            #[trigger] old_root.get_spec(k) is Some ==> k == "version"@ || k == "providers"@)) by {
            if only_version {
                assert forall|k: Seq<char>| #[trigger] old_root.get_spec(k) is Some implies k
                    == "version"@ || k == "providers"@ by {
                    if k != "providers"@ {
                        assert(mid.get_spec(k) is Some);
                    }
                }
            }
            if forall|k: Seq<char>|
                #[trigger] old_root.get_spec(k) is Some ==> k == "version"@ || k == "providers"@ {
                assert forall|k: Seq<char>| #[trigger] mid.get_spec(k) is Some implies k == "version"@ by {
                    if k != "providers"@ {
                        assert(old_root.get_spec(k) is Some);
                    }
                }
            }
        }
        if only_version {
            root.remove("version");
        }
        assert(cleared_from(old_root, ps, provider, root));
    } else {
        root.insert(String::from_str("providers"), JsonValue::Object(providers));
        assert(cleared_from(old_root, ps, provider, root));
    }
    Some(root)
}

// ---------------------------------------------------------------------------
// OAuth tokens
// ---------------------------------------------------------------------------

/// The stored OAuth token set of a credentials document: its `oauth` member,
/// unless absent or `null`.
pub open spec fn stored_oauth(root: JsonObject) -> Option<JsonValue> {
    match root.get_spec("oauth"@) {
        Some(JsonValue::Null) => None,
        other => other,
    }
}

/// Reads the stored OAuth token set of a credentials document.
pub fn load_oauth_credentials(root: &JsonObject) -> (r: Option<&JsonValue>)
    ensures
        match r {
            Some(v) => stored_oauth(*root) == Some(*v),
            None => stored_oauth(*root) is None,
        },
{
    match root.get("oauth") {
        None => None,
        Some(JsonValue::Null) => None,
        Some(v) => Some(v),
    }
}

/// The document after storing a token set: `oauth` holds it, every other
/// member is as it was.
pub open spec fn oauth_saved_into(root: JsonObject, token_set: JsonValue, n: JsonObject) -> bool {
    &&& n.get_spec("oauth"@) == Some(token_set)
    &&& forall|k: Seq<char>| k != "oauth"@ ==> #[trigger] n.get_spec(k) == root.get_spec(k)
}

/// The document after removing the token set: no `oauth`, every other
/// member as it was.
pub open spec fn oauth_cleared_from(root: JsonObject, n: JsonObject) -> bool {
    &&& n.get_spec("oauth"@) is None
    &&& forall|k: Seq<char>| k != "oauth"@ ==> #[trigger] n.get_spec(k) == root.get_spec(k)
}

/// Stores an OAuth token set in a credentials document.
pub fn save_oauth_credentials(root: JsonObject, token_set: JsonValue) -> (n: JsonObject)
    ensures
        oauth_saved_into(root, token_set, n),
{
    let mut root = root;
    root.insert(String::from_str("oauth"), token_set);
    root
}

/// Removes the OAuth token set from a credentials document.
pub fn clear_oauth_credentials(root: JsonObject) -> (n: JsonObject)
    ensures
        oauth_cleared_from(root, n),
{
    let mut root = root;
    root.remove("oauth");
    root
}

// ---------------------------------------------------------------------------
// Laws
// ---------------------------------------------------------------------------

/// A loaded API key is never blank and is always trimmed: it neither starts
/// nor ends with whitespace, and it is the stored `apiKey` text with its
/// surrounding whitespace removed.
pub proof fn lemma_loaded_key_is_trimmed(root: JsonObject, p: SavedApiKeyProvider)
    ensures
        saved_api_key(root, p) matches Some(k) ==> {
            &&& k.len() > 0
            &&& !is_whitespace(k[0])
            &&& !is_whitespace(k.last())
            &&& trim(k) == k
            &&& exists|t: Seq<char>|
                child(root, "providers"@, provider_key(p)) matches Some(JsonValue::Object(entry)) && entry.get_spec(
                    "apiKey"@,
                ) matches Some(JsonValue::Str(stored)) && stored@ == t && #[trigger] trim(t) == k
        },
{
    if let Some(k) = saved_api_key(root, p) {
        let entry = as_object(child(root, "providers"@, provider_key(p))).unwrap();
        if let Some(JsonValue::Str(stored)) = entry.get_spec("apiKey"@) {
            crate::text::lemma_trim_edges(stored@);
            crate::text::lemma_trim_idempotent(stored@);
            assert(trim(stored@) == k);
        }
    }
}

/// Reading a provider's key after saving it gives the saved key, trimmed;
/// the keys of the other providers are as they were.
pub proof fn lemma_saved_api_key_round_trip(
    root: JsonObject,
    p: SavedApiKeyProvider,
    api_key: Seq<char>,
    n: JsonObject,
)
    requires
        save_api_key_error(root, p, api_key) is None,
        saved_into(root, p, trim(api_key), n),
    ensures
        saved_api_key(n, p) == Some(trim(api_key)),
        forall|q: SavedApiKeyProvider| q != p ==> #[trigger] saved_api_key(n, q) == saved_api_key(root, q),
{
    crate::text::lemma_trim_idempotent(api_key);
    assert forall|q: SavedApiKeyProvider| q != p implies #[trigger] saved_api_key(n, q) == saved_api_key(root, q) by {
        lemma_provider_keys_distinct(p, q);
    }
}

/// After a provider's key is cleared, reading it gives nothing; the keys of
/// the other providers are as they were.
pub proof fn lemma_cleared_api_key_gone(root: JsonObject, ps: JsonObject, p: SavedApiKeyProvider, n: JsonObject)
    requires
        as_object(root.get_spec("providers"@)) == Some(ps),
        cleared_from(root, ps, p, n),
    ensures
        saved_api_key(n, p) is None,
        forall|q: SavedApiKeyProvider| q != p ==> #[trigger] saved_api_key(n, q) == saved_api_key(root, q),
{
    reveal_strlit("version");
    reveal_strlit("providers");
    assert("version"@.len() == 7);
    assert("providers"@.len() == 9);
    assert forall|q: SavedApiKeyProvider| q != p implies #[trigger] saved_api_key(n, q) == saved_api_key(root, q) by {
        lemma_provider_keys_distinct(p, q);
        let qk = provider_key(q);
        if providers_left_empty(ps, provider_key(p)) {
            assert(ps.get_spec(qk) is None);
        }
    }
}

/// Saving a key into an empty document and clearing it again leaves an
/// empty document, whose file is removed.
pub proof fn lemma_clear_after_save_empties(
    root: JsonObject,
    p: SavedApiKeyProvider,
    api_key: Seq<char>,
    n1: JsonObject,
    n2: JsonObject,
)
    requires
        root.is_empty_spec(),
        trim(api_key).len() > 0,
        saved_into(root, p, trim(api_key), n1),
        cleared_from(n1, as_object(n1.get_spec("providers"@)).unwrap(), p, n2),
    ensures
        n2.is_empty_spec(),
{
    reveal_strlit("version");
    reveal_strlit("providers");
    reveal_strlit("apiKey");
    assert("version"@.len() == 7);
    assert("providers"@.len() == 9);
    let pk = provider_key(p);
    let ps = as_object(n1.get_spec("providers"@)).unwrap();
    assert(root.get_spec("providers"@) is None);
    assert forall|k: Seq<char>| k != pk implies #[trigger] ps.get_spec(k) is None by {}
    let e = as_object(ps.get_spec(pk)).unwrap();
    assert forall|k: Seq<char>| k != "apiKey"@ implies #[trigger] e.get_spec(k) is None by {}
    assert(entry_emptied(ps, pk));
    assert(providers_left_empty(ps, pk));
    assert forall|k: Seq<char>| #[trigger] n1.get_spec(k) is Some implies k == "version"@ || k == "providers"@ by {
        if k != "version"@ && k != "providers"@ {
            assert(root.get_spec(k) is None);
        }
    }
    assert forall|k: Seq<char>| #[trigger] n2.get_spec(k) is None by {
        if k != "version"@ && k != "providers"@ {
            assert(root.get_spec(k) is None);
        }
    }
}

/// Loading after storing a token set gives it back, unless it is `null`.
pub proof fn lemma_oauth_round_trip(root: JsonObject, token_set: JsonValue, n: JsonObject)
    requires
        oauth_saved_into(root, token_set, n),
        token_set != JsonValue::Null,
    ensures
        stored_oauth(n) == Some(token_set),
{
}

/// Loading after clearing gives nothing, and storing into an empty document
/// then clearing leaves it empty.
pub proof fn lemma_oauth_clear(root: JsonObject, token_set: JsonValue, n1: JsonObject, n2: JsonObject)
    requires
        oauth_saved_into(root, token_set, n1),
        oauth_cleared_from(n1, n2),
    ensures
        stored_oauth(n2) is None,
        forall|k: Seq<char>| k != "oauth"@ ==> #[trigger] n2.get_spec(k) == root.get_spec(k),
        root.is_empty_spec() ==> n2.is_empty_spec(),
{
    if root.is_empty_spec() {
        assert forall|k: Seq<char>| #[trigger] n2.get_spec(k) is None by {
            if k != "oauth"@ {
                assert(root.get_spec(k) is None);
            }
        }
    }
}

} // verus!
