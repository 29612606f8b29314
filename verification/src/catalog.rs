//! The OpenRouter model catalog: the model records, the catalog endpoint
//! derived from a configured base URL, the classification of error replies,
//! and the order in which models are listed.
use vstd::prelude::*;
use vstd::string::StringSliceAdditionalSpecFns;
use vstd::utf8::*;

use crate::text::{
    ascii_lower, ascii_lower_chars, bytes_lt, chars_of, compare_bytes, copy_string, ends_with,
    ends_with_chars, lemma_bytes_lt_prefix, lemma_bytes_lt_total, lemma_bytes_lt_trans, push_chars,
    push_str_chars,
    string_from_chars, strip_trailing, strip_trailing_chars, ByteOrder,
};

verus! {

/// The OpenRouter API root used when none is configured.
pub const DEFAULT_BASE_URL: &'static str = "https://openrouter.ai/api/v1";

/// Prices of a model, as the decimal strings the catalog gives.
#[derive(Debug, Clone, PartialEq, Eq)]
pub struct OpenRouterPricing {
    pub prompt: String,
    pub completion: String,
    pub request: String,
    pub image: String,
}

impl Default for OpenRouterPricing {
    fn default() -> (r: Self)
        ensures
            r.prompt@.len() == 0,
            r.completion@.len() == 0,
            r.request@.len() == 0,
            r.image@.len() == 0,
    {
        OpenRouterPricing {
            prompt: String::new(),
            completion: String::new(),
            request: String::new(),
            image: String::new(),
        }
    }
}

/// Limits of the provider that serves a model.
#[derive(Debug, Clone, PartialEq, Eq)]
pub struct OpenRouterTopProvider {
    pub context_length: Option<u32>,
    pub max_completion_tokens: Option<u32>,
    pub is_moderated: Option<bool>,
}

impl Default for OpenRouterTopProvider {
    fn default() -> (r: Self)
        ensures
            r.context_length is None,
            r.max_completion_tokens is None,
            r.is_moderated is None,
    {
        OpenRouterTopProvider { context_length: None, max_completion_tokens: None, is_moderated: None }
    }
}

/// One model of the catalog.
#[derive(Debug, Clone, PartialEq, Eq)]
pub struct OpenRouterModel {
    pub id: String,
    pub canonical_slug: String,
    pub name: String,
    pub description: String,
    pub pricing: OpenRouterPricing,
    pub context_length: u32,
    pub top_provider: OpenRouterTopProvider,
    pub supported_parameters: Vec<String>,
}

/// Why a catalog request failed.
#[derive(Debug, Clone, PartialEq, Eq)]
pub enum ApiError {
    /// No credential was found for the provider in any of the named
    /// environment variables.
    MissingCredentials { provider: String, env_vars: Vec<String> },
    /// The environment variable `name` is set but could not be read.
    EnvVar { name: String, message: String },
    /// The API answered with an error status.
    Api {
        status: u16,
        error_type: Option<String>,
        message: Option<String>,
        body: String,
        retryable: bool,
    },
}

/// The catalog client's settings: the API key it authenticates with and the
/// base URL it talks to.
#[derive(Debug, Clone, PartialEq, Eq)]
pub struct OpenRouterCatalogClient {
    pub api_key: String,
    pub base_url: String,
}

/// The base URL: the configured one, else [`DEFAULT_BASE_URL`].
pub fn read_base_url(configured: Option<String>) -> (r: String)
    ensures
        r@ == (match configured {
            Some(c) => c@,
            None => DEFAULT_BASE_URL@,
        }),
{
    match configured {
        Some(c) => c,
        None => String::from_str(DEFAULT_BASE_URL),
    }
}

impl OpenRouterCatalogClient {
    /// A client with an API key and a base URL.
    pub fn new(api_key: String, base_url: String) -> (r: Self)
        ensures
            r.api_key == api_key,
            r.base_url == base_url,
    {
        OpenRouterCatalogClient { api_key, base_url }
    }

    /// A client from the result of looking up the `OPENROUTER_API_KEY`
    /// setting: a failed lookup is passed on, an absent key is a missing
    /// credential.
    pub fn from_env(api_key: Result<Option<String>, ApiError>, base_url: String) -> (r: Result<Self, ApiError>)
        ensures
            match api_key {
                Err(e) => r == Err::<Self, ApiError>(e),
                Ok(Some(k)) => r matches Ok(c) && c.api_key == k && c.base_url == base_url,
                Ok(None) => r matches Err(ApiError::MissingCredentials { provider, env_vars }) && provider@
                    == "OpenRouter"@ && env_vars@.len() == 1 && env_vars@[0]@ == "OPENROUTER_API_KEY"@,
            },
    {
        match api_key {
            Err(e) => Err(e),
            Ok(Some(k)) => Ok(OpenRouterCatalogClient::new(k, base_url)),
            Ok(None) => {
                let mut env_vars: Vec<String> = Vec::new();
                env_vars.push(String::from_str("OPENROUTER_API_KEY"));
                Err(ApiError::MissingCredentials { provider: String::from_str("OpenRouter"), env_vars })
            },
        }
    }

    /// The same client talking to another base URL.
    pub fn with_base_url(self, base_url: String) -> (r: Self)
        ensures
            r.api_key == self.api_key,
            r.base_url == base_url,
    {
        let mut this = self;
        this.base_url = base_url;
        this
    }

    /// The URL of the user's model catalog.
    pub fn models_endpoint(&self) -> (r: String)
        ensures
            r@ == models_user_endpoint_spec(self.base_url@),
    {
        models_user_endpoint(self.base_url.as_str())
    }
}

// ---------------------------------------------------------------------------
// The catalog endpoint
// ---------------------------------------------------------------------------

/// `s` without the suffix `suffix`, when it ends with it.
pub open spec fn strip_suffix(s: Seq<char>, suffix: Seq<char>) -> Option<Seq<char>> {
    if ends_with(s, suffix) {
        Some(s.take(s.len() - suffix.len()))
    } else {
        None
    }
}

/// The API root of a base URL: trailing slashes dropped, then one of
/// `/chat/completions`, `/models/user` or `/models` (the first that ends it).
pub open spec fn api_root(base_url: Seq<char>) -> Seq<char> {
    let t = strip_trailing(base_url, '/');
    match strip_suffix(t, "/chat/completions"@) {
        Some(r) => r,
        None => match strip_suffix(t, "/models/user"@) {
            Some(r) => r,
            None => match strip_suffix(t, "/models"@) {
                Some(r) => r,
                None => t,
            },
        },
    }
}

/// The catalog endpoint of a base URL: its API root followed by `/models/user`.
pub open spec fn models_user_endpoint_spec(base_url: Seq<char>) -> Seq<char> {
    api_root(base_url) + "/models/user"@
}

/// The catalog endpoint of a catalog endpoint is itself: deriving the
/// endpoint twice gives what deriving it once gives.
pub proof fn lemma_models_user_endpoint_idempotent(base_url: Seq<char>)
    ensures
        models_user_endpoint_spec(models_user_endpoint_spec(base_url)) == models_user_endpoint_spec(
            base_url,
        ),
{
    reveal_strlit("/models/user");
    reveal_strlit("/chat/completions");
    let root = api_root(base_url);
    let e = models_user_endpoint_spec(base_url);
    let suffix = "/models/user"@;
    assert(e.len() > 0 && e.last() == 'r');
    assert(strip_trailing(e, '/') == e);
    assert(e.skip(e.len() - suffix.len()) =~= suffix);
    assert(ends_with(e, suffix));
    let chat = "/chat/completions"@;
    if ends_with(e, chat) {
        assert(e.skip(e.len() - chat.len()).last() == e.last());
        assert(false);
    }
    assert(strip_suffix(e, suffix) == Some(root)) by {
        assert(e.take(e.len() - suffix.len()) =~= root);
    }
}

fn strip_suffix_chars(s: &Vec<char>, suffix: &str) -> (r: Option<Vec<char>>)
    ensures
        match strip_suffix(s@, suffix@) {
            Some(t) => r matches Some(v) && v@ == t,
            None => r is None,
        },
{
    let sc = chars_of(suffix);
    if ends_with_chars(s.as_slice(), sc.as_slice()) {
        let keep = s.len() - sc.len();
        let mut out: Vec<char> = Vec::new();
        let mut i: usize = 0;
        while i < keep
            invariant
                keep <= s@.len(),
                i <= keep,
                out@ == s@.take(i as int),
            decreases keep - i,
        {
            out.push(s[i]);
            i = i + 1;
            assert(out@ =~= s@.take(i as int));
        }
        Some(out)
    } else {
        None
    }
}

/// The catalog endpoint of a base URL.
pub fn models_user_endpoint(base_url: &str) -> (r: String)
    ensures
        r@ == models_user_endpoint_spec(base_url@),
{
    let chars = chars_of(base_url);
    let trimmed = strip_trailing_chars(chars.as_slice(), '/');
    let root = match strip_suffix_chars(&trimmed, "/chat/completions") {
        Some(r) => r,
        None => match strip_suffix_chars(&trimmed, "/models/user") {
            Some(r) => r,
            None => match strip_suffix_chars(&trimmed, "/models") {
                Some(r) => r,
                None => trimmed,
            },
        },
    };
    let mut out = String::new();
    push_chars(&mut out, root.as_slice());
    push_str_chars(&mut out, "/models/user");
    out
}

// ---------------------------------------------------------------------------
// Error replies
// ---------------------------------------------------------------------------

/// Whether a status is a success (2xx).
pub open spec fn success_status(status: u16) -> bool {
    200 <= status && status <= 299
}

/// Whether a request that got this status is worth retrying: 408, 409, 429,
/// 500, 502, 503 and 504.
pub open spec fn retryable_status(status: u16) -> bool {
    status == 408 || status == 409 || status == 429 || status == 500 || status == 502 || status
        == 503 || status == 504
}

/// Whether a status is a success (2xx).
pub fn is_success_status(status: u16) -> (r: bool)
    ensures
        r == success_status(status),
{
    200 <= status && status <= 299
}

/// Whether a request that got this status is worth retrying.
pub fn is_retryable_status(status: u16) -> (r: bool)
    ensures
        r == retryable_status(status),
{
    status == 408 || status == 409 || status == 429 || status == 500 || status == 502 || status
        == 503 || status == 504
}

/// The error for a reply with an error status: its status, the `type` and
/// `message` of its JSON error body when it has one, the body's text, and
/// whether it is worth retrying.
pub fn api_error_from_reply(status: u16, body: String, error_type: Option<String>, message: Option<String>) -> (r: ApiError)
    ensures
        r == (ApiError::Api {
            status,
            error_type,
            message,
            body,
            retryable: retryable_status(status),
        }),
{
    ApiError::Api { status, error_type, message, body, retryable: is_retryable_status(status) }
}

// ---------------------------------------------------------------------------
// Listing order
// ---------------------------------------------------------------------------

/// The primary sort key of a model: its name, ASCII-lowercased, as bytes.
pub open spec fn name_key(m: OpenRouterModel) -> Seq<u8> {
    encode_utf8(ascii_lower(m.name@))
}

/// The secondary sort key of a model: its id, as bytes.
pub open spec fn id_key(m: OpenRouterModel) -> Seq<u8> {
    encode_utf8(m.id@)
}

/// Whether `a` is listed strictly before `b`: by lowercased name, then id.
pub open spec fn model_lt(a: OpenRouterModel, b: OpenRouterModel) -> bool {
    bytes_lt(name_key(a), name_key(b)) || (name_key(a) == name_key(b) && bytes_lt(id_key(a), id_key(b)))
}

/// Whether two models have the same sort keys.
pub open spec fn same_key(a: OpenRouterModel, b: OpenRouterModel) -> bool {
    name_key(a) == name_key(b) && id_key(a) == id_key(b)
}

/// `perm` lists each index below `n` once.
pub open spec fn is_permutation(perm: Seq<int>, n: nat) -> bool {
    &&& perm.len() == n
    &&& forall|i: int| 0 <= i < n ==> 0 <= #[trigger] perm[i] < n
    &&& forall|i: int, j: int| 0 <= i < j < n ==> #[trigger] perm[i] != #[trigger] perm[j]
}

/// `output` is `input` sorted by [`model_lt`], models with the same keys
/// keeping their relative order; `perm` tells where each came from.
pub open spec fn stable_sorted(input: Seq<OpenRouterModel>, output: Seq<OpenRouterModel>, perm: Seq<int>) -> bool {
    &&& output.len() == input.len()
    &&& is_permutation(perm, input.len())
    &&& forall|i: int| 0 <= i < output.len() ==> #[trigger] output[i] == input[perm[i]]
    &&& forall|i: int, j: int| 0 <= i < j < output.len() ==> !model_lt(#[trigger] output[j], #[trigger] output[i])
    &&& forall|i: int, j: int|
        0 <= i < j < output.len() && same_key(#[trigger] output[i], #[trigger] output[j]) ==> perm[i] < perm[j]
}

/// The UTF-8 bytes of joined texts are the joined bytes.
proof fn lemma_encode_utf8_concat(x: Seq<char>, y: Seq<char>)
    ensures
        encode_utf8(x + y) == encode_utf8(x) + encode_utf8(y),
    decreases x.len(),
{
    if x.len() == 0 {
        assert(x + y =~= y);
        assert(encode_utf8(x) + encode_utf8(y) =~= encode_utf8(y));
    } else {
        lemma_encode_utf8_concat(x.drop_first(), y);
        assert((x + y).drop_first() =~= x.drop_first() + y);
        assert((x + y)[0] == x[0]);
        assert(encode_utf8(x + y) =~= encode_utf8(x) + encode_utf8(y));
    }
}

/// Non-empty text has non-empty UTF-8 bytes.
proof fn lemma_encode_utf8_nonempty(x: Seq<char>)
    requires
        x.len() > 0,
    ensures
        encode_utf8(x).len() > 0,
{
    assert(encode_scalar(x[0] as u32).len() > 0);
}

/// A model whose lowercased name is a proper prefix of another model's
/// lowercased name is ordered before it, whatever their ids, and comes first
/// in every listing that `sort_models` may produce.
pub proof fn lemma_name_prefix_listed_first(
    a: OpenRouterModel,
    b: OpenRouterModel,
    x: Seq<char>,
    input: Seq<OpenRouterModel>,
    output: Seq<OpenRouterModel>,
    perm: Seq<int>,
)
    requires
        x.len() > 0,
        ascii_lower(b.name@) == ascii_lower(a.name@) + x,
        stable_sorted(input, output, perm),
    ensures
        model_lt(a, b),
        !model_lt(b, a),
        forall|i: int, j: int|
            0 <= i < output.len() && 0 <= j < output.len() && #[trigger] output[i] == a && #[trigger] output[j]
                == b ==> i < j,
{
    lemma_encode_utf8_concat(ascii_lower(a.name@), x);
    lemma_encode_utf8_nonempty(x);
    lemma_bytes_lt_prefix(name_key(a), encode_utf8(x));
    assert(name_key(b) == name_key(a) + encode_utf8(x));
    assert(name_key(a) != name_key(b)) by {
        assert(name_key(b).len() > name_key(a).len());
    }
    assert forall|i: int, j: int|
        0 <= i < output.len() && 0 <= j < output.len() && #[trigger] output[i] == a && #[trigger] output[j] == b
            implies i < j by {
        if j < i {
            assert(!model_lt(output[i], output[j]));
        } else if i == j {
            assert(a == b);
        }
    }
}

proof fn lemma_model_order(a: OpenRouterModel, b: OpenRouterModel, c: OpenRouterModel)
    ensures
        !model_lt(a, a),
        model_lt(a, b) ==> !model_lt(b, a),
        !model_lt(a, b) && !model_lt(b, a) ==> same_key(a, b),
        model_lt(a, b) && !model_lt(c, b) ==> model_lt(a, c),
        model_lt(a, b) ==> !same_key(a, b),
{
    lemma_bytes_lt_total(name_key(a), name_key(b));
    lemma_bytes_lt_total(id_key(a), id_key(b));
    lemma_bytes_lt_total(name_key(b), name_key(c));
    lemma_bytes_lt_total(id_key(b), id_key(c));
    lemma_bytes_lt_total(name_key(a), name_key(c));
    lemma_bytes_lt_total(id_key(a), id_key(c));
    if bytes_lt(name_key(a), name_key(b)) && bytes_lt(name_key(b), name_key(c)) {
        lemma_bytes_lt_trans(name_key(a), name_key(b), name_key(c));
    }
    if bytes_lt(id_key(a), id_key(b)) && bytes_lt(id_key(b), id_key(c)) {
        lemma_bytes_lt_trans(id_key(a), id_key(b), id_key(c));
    }
}

fn lowered_name(m: &OpenRouterModel) -> (r: String)
    ensures
        r@ == ascii_lower(m.name@),
{
    let c = chars_of(m.name.as_str());
    let l = ascii_lower_chars(c.as_slice());
    string_from_chars(l.as_slice())
}

/// Whether the model with lowered name `an` and id `ai` is listed strictly
/// before the one with `bn` and `bi`.
fn listed_before(an: &String, ai: &String, bn: &String, bi: &String) -> (r: bool)
    ensures
        r == (bytes_lt(encode_utf8(an@), encode_utf8(bn@)) || (encode_utf8(an@) == encode_utf8(bn@)
            && bytes_lt(encode_utf8(ai@), encode_utf8(bi@)))),
{
    match compare_bytes(an.as_str().as_bytes(), bn.as_str().as_bytes()) {
        ByteOrder::Less => true,
        ByteOrder::Greater => {
            proof {
                lemma_bytes_lt_total(encode_utf8(an@), encode_utf8(bn@));
            }
            false
        },
        ByteOrder::Same => compare_bytes(ai.as_str().as_bytes(), bi.as_str().as_bytes()) == ByteOrder::Less,
    }
}

/// Sorts models for listing: by ASCII-lowercased name, then by id; models
/// with equal keys keep their order.
pub fn sort_models(models: Vec<OpenRouterModel>) -> (r: Vec<OpenRouterModel>)
    ensures
        exists|perm: Seq<int>| #[trigger] stable_sorted(models@, r@, perm),
{
    let ghost input = models@;
    let n = models.len();
    let mut rest = models;
    let mut result: Vec<OpenRouterModel> = Vec::new();
    let mut keys: Vec<String> = Vec::new();
    let ghost mut perm: Seq<int> = Seq::empty();
    let mut i: usize = 0;
    while i < n
        invariant
            n == input.len(),
            i <= n,
            rest@ == input.skip(i as int),
            result@.len() == i,
            keys@.len() == i,
            forall|j: int| 0 <= j < i ==> (#[trigger] keys@[j])@ == ascii_lower(result@[j].name@),
            stable_sorted(input.take(i as int), result@, perm),
        decreases n - i,
    {
        let ghost x = input[i as int];
        assert(rest@[0] == x);
        let m = rest.remove(0);
        assert(rest@ =~= input.skip(i + 1));
        let mk = lowered_name(&m);
        let mut pos: usize = 0;
        while pos < i && !listed_before(&mk, &m.id, &keys[pos], &result[pos].id)
            invariant
                i == result@.len(),
                i == keys@.len(),
                pos <= i,
                m == x,
                mk@ == ascii_lower(x.name@),
                forall|j: int| 0 <= j < i ==> (#[trigger] keys@[j])@ == ascii_lower(result@[j].name@),
                forall|j: int| 0 <= j < pos ==> !model_lt(x, #[trigger] result@[j]),
            decreases i - pos,
        {
            pos = pos + 1;
        }
        let ghost old_result = result@;
        let ghost old_perm = perm;
        let ghost old_keys = keys@;
        proof {
            let t = input.take(i + 1);
            assert(t[i as int] == x);
            let np = old_perm.insert(pos as int, i as int);
            let nr = old_result.insert(pos as int, x);
            assert forall|j: int| pos <= j < i implies model_lt(x, #[trigger] old_result[j]) by {
                assert(model_lt(x, old_result[pos as int]));
                if j > pos {
                    assert(!model_lt(old_result[j], old_result[pos as int]));
                    lemma_model_order(x, old_result[pos as int], old_result[j]);
                }
            }
            assert(is_permutation(np, (i + 1) as nat)) by {
                assert forall|a: int| 0 <= a < i + 1 implies 0 <= #[trigger] np[a] < i + 1 by {
                    if a < pos {
                        assert(np[a] == old_perm[a]);
                    } else if a > pos {
                        assert(np[a] == old_perm[a - 1]);
                    }
                }
                assert forall|a: int, b: int| 0 <= a < b < i + 1 implies #[trigger] np[a] != #[trigger] np[b] by {
                    if a < pos && b < pos {
                        assert(np[a] == old_perm[a] && np[b] == old_perm[b]);
                    } else if a < pos && b == pos {
                        assert(np[a] == old_perm[a]);
                    } else if a < pos {
                        assert(np[a] == old_perm[a] && np[b] == old_perm[b - 1]);
                    } else if a == pos {
                        assert(np[b] == old_perm[b - 1]);
                    } else {
                        assert(np[a] == old_perm[a - 1] && np[b] == old_perm[b - 1]);
                    }
                }
            }
            assert forall|a: int| 0 <= a < i + 1 implies #[trigger] nr[a] == t[np[a]] by {
                if a < pos {
                    assert(nr[a] == old_result[a] && np[a] == old_perm[a]);
                    assert(old_result[a] == input.take(i as int)[old_perm[a]]);
                } else if a > pos {
                    assert(nr[a] == old_result[a - 1] && np[a] == old_perm[a - 1]);
                    assert(old_result[a - 1] == input.take(i as int)[old_perm[a - 1]]);
                }
            }
            assert forall|a: int, b: int| 0 <= a < b < i + 1 implies !model_lt(#[trigger] nr[b], #[trigger] nr[a]) by {
                if b < pos {
                    assert(nr[a] == old_result[a] && nr[b] == old_result[b]);
                } else if b == pos {
                    assert(nr[a] == old_result[a]);
                } else if a < pos {
                    assert(nr[a] == old_result[a] && nr[b] == old_result[b - 1]);
                } else if a == pos {
                    assert(nr[b] == old_result[b - 1]);
                    lemma_model_order(x, old_result[b - 1], x);
                } else {
                    assert(nr[a] == old_result[a - 1] && nr[b] == old_result[b - 1]);
                }
            }
            assert forall|a: int, b: int|
                0 <= a < b < i + 1 && same_key(#[trigger] nr[a], #[trigger] nr[b]) implies np[a] < np[b] by {
                if b < pos {
                    assert(nr[a] == old_result[a] && nr[b] == old_result[b]);
                    assert(np[a] == old_perm[a] && np[b] == old_perm[b]);
                } else if b == pos {
                    assert(np[a] == old_perm[a]);
                } else if a < pos {
                    assert(nr[a] == old_result[a] && nr[b] == old_result[b - 1]);
                    assert(np[a] == old_perm[a] && np[b] == old_perm[b - 1]);
                } else if a == pos {
                    assert(nr[b] == old_result[b - 1]);
                    lemma_model_order(x, old_result[b - 1], x);
                } else {
                    assert(nr[a] == old_result[a - 1] && nr[b] == old_result[b - 1]);
                    assert(np[a] == old_perm[a - 1] && np[b] == old_perm[b - 1]);
                }
            }
        }
        result.insert(pos, m);
        keys.insert(pos, mk);
        proof {
            perm = old_perm.insert(pos as int, i as int);
            assert forall|j: int| 0 <= j < i + 1 implies (#[trigger] keys@[j])@ == ascii_lower(
                result@[j].name@,
            ) by {
                if j < pos {
                    assert(keys@[j] == old_keys[j] && result@[j] == old_result[j]);
                } else if j > pos {
                    assert(keys@[j] == old_keys[j - 1] && result@[j] == old_result[j - 1]);
                }
            }
        }
        i = i + 1;
    }
    assert(input.take(n as int) =~= input);
    result
}

} // verus!
