//! Endpoint configuration model: identity, retry/backoff policy, protocol
//! kind and per-variant parameter overlays, with the validation rules that
//! must hold before the engine runs.
//!
//! The process boundary loads the configuration file and hands the decoded
//! endpoint list in; free-form JSON overlay values stay outside the engine,
//! which only needs their keys for the collision check.

use vstd::prelude::*;
use crate::strutil::{views, str_eq, contains_string};
use vstd::string::StrSliceExecFns;

verus! {

/// Default request timeout in milliseconds.
pub fn default_timeout() -> (r: u64)
    ensures
        r == 600,
{
    600
}

/// Default number of attempts.
pub fn default_retries() -> (r: u32)
    ensures
        r == 100,
{
    100
}

/// Default initial backoff delay in milliseconds.
pub fn default_delay() -> (r: u64)
    ensures
        r == 10000,
{
    10000
}

/// Default backoff ceiling in milliseconds.
pub fn default_max_delay() -> (r: u64)
    ensures
        r == 600000,
{
    600000
}

/// Message-framing switches, settable at endpoint or variant level but not
/// both.
#[derive(Debug, Clone, Copy)]
pub struct EndpointContext {
    pub with_system_message: Option<bool>,
    pub no_diff: Option<bool>,
}

/// The keys of a free-form JSON parameter overlay; the values live outside
/// the engine, which checks only that no key is given twice.
#[derive(Debug)]
pub struct EndpointJson {
    pub keys: Vec<String>,
}

/// A named parameter overlay that turns one configured endpoint into
/// several independent requests.
#[derive(Debug)]
pub struct EndpointVariants {
    pub name: Option<String>,
    pub context: Option<EndpointContext>,
    pub json: Option<EndpointJson>,
}

/// The protocol kind of an endpoint.
#[derive(Debug)]
pub enum EndpointTypeConfig {
    OpenAI { variants: Option<Vec<EndpointVariants>>, no_chat: bool },
    Anthropic { variants: Option<Vec<EndpointVariants>> },
    Patchpal,
}

/// One configured completion provider; immutable for the run.
#[derive(Debug)]
pub struct EndpointConfig {
    pub name: String,
    pub url: String,
    /// Request timeout in milliseconds.
    pub timeout: u64,
    /// Attempt count.
    pub retries: u32,
    /// Initial backoff delay in milliseconds.
    pub delay: u64,
    /// Backoff ceiling in milliseconds.
    pub max_delay: u64,
    /// Pause after a successful call, in milliseconds.
    pub wait: u64,
    pub root_certificate_pem: Option<String>,
    pub api_key_file: Option<String>,
    pub context: Option<EndpointContext>,
    pub json: Option<EndpointJson>,
    pub config: EndpointTypeConfig,
}

/// The variant list of an endpoint, when its protocol kind has one.
pub open spec fn spec_variants(ep: EndpointConfig) -> Option<Seq<EndpointVariants>> {
    match ep.config {
        EndpointTypeConfig::OpenAI { variants, .. } => match variants {
            Some(vs) => Some(vs@),
            None => None,
        },
        EndpointTypeConfig::Anthropic { variants } => match variants {
            Some(vs) => Some(vs@),
            None => None,
        },
        EndpointTypeConfig::Patchpal => None,
    }
}

/// A variant index the engine may ask about: inside the configured variant
/// list, or the sole implicit variant when none is configured.
pub open spec fn variant_idx_ok(ep: EndpointConfig, v: int) -> bool {
    match spec_variants(ep) {
        Some(vs) => 0 <= v < vs.len() || v == 0,
        None => v == 0,
    }
}

/// The label of one variant, when it has one.
pub open spec fn spec_variant_name(ep: EndpointConfig, v: int) -> Option<Seq<char>> {
    match spec_variants(ep) {
        Some(vs) => if 0 <= v < vs.len() {
            match vs[v].name {
                Some(n) => Some(n@),
                None => None,
            }
        } else {
            None
        },
        None => None,
    }
}

/// Why a configuration is rejected before any work starts.
#[derive(Debug, Clone, Copy, PartialEq, Eq, Structural)]
pub enum ConfigError {
    EmptyEndpoints,
    EmptyName,
    InvalidName,
    EmptyUrl,
    InvalidVariantName,
    DuplicateVariantName,
    DuplicateJsonKey,
    ConflictingContextField,
    DuplicateName,
}

/// A character that no endpoint or variant name may contain.
pub open spec fn forbidden_char(c: char) -> bool {
    c == '(' || c == ')' || c == '|' || c == ','
}

pub open spec fn has_forbidden(s: Seq<char>) -> bool {
    exists|i: int| 0 <= i < s.len() && forbidden_char(#[trigger] s[i])
}

/// The overlay keys of an optional JSON overlay.
pub open spec fn json_keys(j: Option<EndpointJson>) -> Seq<Seq<char>> {
    match j {
        Some(jj) => views(jj.keys@),
        None => Seq::empty(),
    }
}

/// Whether the list holds a key twice.
pub open spec fn has_dup(keys: Seq<Seq<char>>) -> bool {
    exists|p: int, q: int| 0 <= p < q < keys.len() && keys[p] == keys[q]
}

/// Whether appending `ks` one by one to the already-seen keys `seen` would
/// hit a key that is already present.
pub open spec fn dup_when_appending(seen: Seq<Seq<char>>, ks: Seq<Seq<char>>) -> bool {
    exists|q: int|
        0 <= q < ks.len() && (seen.contains(#[trigger] ks[q]) || exists|p: int|
            0 <= p < q && ks[p] == ks[q])
}

/// The variant's label, the empty string when it has none.
pub open spec fn variant_label(v: EndpointVariants) -> Seq<char> {
    match v.name {
        Some(n) => n@,
        None => Seq::empty(),
    }
}

/// Whether a context switch is set at both the endpoint and the variant
/// level.
pub open spec fn context_conflict(e: Option<EndpointContext>, v: Option<EndpointContext>) -> bool {
    match (e, v) {
        (Some(ec), Some(vc)) => (ec.with_system_message is Some && vc.with_system_message is Some)
            || (ec.no_diff is Some && vc.no_diff is Some),
        _ => false,
    }
}

/// Check the variants of one endpoint from index `j` on, with the overlay
/// keys and variant labels seen so far: labels must be free of forbidden
/// characters and unique, overlay keys must not repeat across the endpoint
/// and its variants, and no context switch may be set twice.
pub open spec fn check_variants_from(
    ep: EndpointConfig,
    vs: Seq<EndpointVariants>,
    seen_keys: Seq<Seq<char>>,
    seen_names: Seq<Seq<char>>,
    j: int,
) -> Option<ConfigError>
    decreases vs.len() - j,
{
    if j < 0 || j >= vs.len() {
        None
    } else {
        let v = vs[j];
        let vname = variant_label(v);
        if has_forbidden(vname) {
            Some(ConfigError::InvalidVariantName)
        } else if seen_names.contains(vname) {
            Some(ConfigError::DuplicateVariantName)
        } else {
            let vkeys = json_keys(v.json);
            if dup_when_appending(seen_keys, vkeys) {
                Some(ConfigError::DuplicateJsonKey)
            } else if context_conflict(ep.context, v.context) {
                Some(ConfigError::ConflictingContextField)
            } else {
                check_variants_from(ep, vs, seen_keys + vkeys, seen_names.push(vname), j + 1)
            }
        }
    }
}

/// Validation of one endpoint's variant structure.
pub open spec fn spec_validate_endpoint(ep: EndpointConfig) -> Option<ConfigError> {
    match spec_variants(ep) {
        None => None,
        Some(vs) => {
            let keys0 = json_keys(ep.json);
            if has_dup(keys0) {
                Some(ConfigError::DuplicateJsonKey)
            } else {
                check_variants_from(ep, vs, keys0, Seq::empty(), 0)
            }
        },
    }
}

/// Per-endpoint checks, in configuration order, from endpoint `i` on.
pub open spec fn check_endpoints_from(eps: Seq<EndpointConfig>, i: int) -> Option<ConfigError>
    decreases eps.len() - i,
{
    if i < 0 || i >= eps.len() {
        None
    } else {
        let ep = eps[i];
        if ep.name@.len() == 0 {
            Some(ConfigError::EmptyName)
        } else if has_forbidden(ep.name@) {
            Some(ConfigError::InvalidName)
        } else if ep.url@.len() == 0 {
            Some(ConfigError::EmptyUrl)
        } else {
            match spec_validate_endpoint(ep) {
                Some(e) => Some(e),
                None => check_endpoints_from(eps, i + 1),
            }
        }
    }
}

/// Duplicate-name check from endpoint `i` on.
pub open spec fn check_dup_names_from(eps: Seq<EndpointConfig>, i: int) -> Option<ConfigError>
    decreases eps.len() - i,
{
    if i < 0 || i >= eps.len() {
        None
    } else if exists|j: int| 0 <= j < i && (#[trigger] eps[j]).name@ == eps[i].name@ {
        Some(ConfigError::DuplicateName)
    } else {
        check_dup_names_from(eps, i + 1)
    }
}

/// Full validation of an endpoint list: it must be nonempty, each endpoint
/// must pass its checks, and names must be unique.
pub open spec fn spec_validate_config(eps: Seq<EndpointConfig>) -> Option<ConfigError> {
    if eps.len() == 0 {
        Some(ConfigError::EmptyEndpoints)
    } else {
        match check_endpoints_from(eps, 0) {
            Some(e) => Some(e),
            None => check_dup_names_from(eps, 1),
        }
    }
}

/// The validated endpoint list.
#[derive(Debug)]
pub struct Config {
    pub endpoints: Vec<EndpointConfig>,
}

fn has_forbidden_exec(s: &str) -> (r: bool)
    ensures
        r == has_forbidden(s@),
{
    let n = s.unicode_len();
    let mut i: usize = 0;
    while i < n
        invariant
            i <= n,
            n == s@.len(),
            forall|j: int| 0 <= j < i ==> !forbidden_char(#[trigger] s@[j]),
        decreases n - i,
    {
        let c = s.get_char(i);
        if c == '(' || c == ')' || c == '|' || c == ',' {
            proof {
                assert(forbidden_char(s@[i as int]));
            }
            return true;
        }
        i += 1;
    }
    proof {
        if has_forbidden(s@) {
            let j = choose|j: int| 0 <= j < s@.len() && forbidden_char(#[trigger] s@[j]);
            assert(!forbidden_char(s@[j]));
        }
    }
    false
}

/// Append `ks` to the seen keys one by one; report a key already present.
pub fn append_keys_checked(seen: &mut Vec<String>, ks: &Vec<String>) -> (r: bool)
    ensures
        r == dup_when_appending(views(old(seen)@), views(ks@)),
        !r ==> views(final(seen)@) == views(old(seen)@) + views(ks@),
{
    let ghost seen0 = views(seen@);
    let ghost ksv = views(ks@);
    let n = ks.len();
    let mut q: usize = 0;
    while q < n
        invariant
            q <= n,
            n == ks@.len(),
            seen0 == views(old(seen)@),
            ksv == views(ks@),
            views(seen@) == seen0 + ksv.take(q as int),
            forall|x: int|
                0 <= x < q ==> !seen0.contains(#[trigger] ksv[x]) && !(exists|p: int|
                    0 <= p < x && ksv[p] == ksv[x]),
        decreases n - q,
    {
        if contains_string(seen, ks[q].as_str()) {
            proof {
                let key = ksv[q as int];
                assert(views(seen@).contains(key));
                let w = choose|w: int| 0 <= w < views(seen@).len() && views(seen@)[w] == key;
                if w < seen0.len() {
                    assert(seen0[w] == key);
                    assert(seen0.contains(key));
                } else {
                    assert(ksv.take(q as int)[w - seen0.len()] == key);
                    assert(ksv[w - seen0.len()] == key);
                }
                assert(dup_when_appending(seen0, ksv));
            }
            return true;
        }
        let ghost pre = views(seen@);
        seen.push(ks[q].clone());
        proof {
            assert(views(seen@) =~= pre.push(ksv[q as int]));
            assert(views(seen@) =~= seen0 + ksv.take(q + 1));
            assert forall|x: int| 0 <= x < q + 1 implies !seen0.contains(#[trigger] ksv[x]) && !(
            exists|p: int| 0 <= p < x && ksv[p] == ksv[x]) by {
                if x == q {
                    if seen0.contains(ksv[x]) {
                        let w = choose|w: int| 0 <= w < seen0.len() && seen0[w] == ksv[x];
                        assert(pre[w] == ksv[x]);
                        assert(pre.contains(ksv[x]));
                    }
                    if exists|p: int| 0 <= p < x && ksv[p] == ksv[x] {
                        let p = choose|p: int| 0 <= p < x && ksv[p] == ksv[x];
                        assert(pre[seen0.len() + p] == ksv[x]);
                        assert(pre.contains(ksv[x]));
                    }
                }
            }
        }
        q += 1;
    }
    proof {
        assert(views(seen@) =~= seen0 + ksv);
        if dup_when_appending(seen0, ksv) {
            let x = choose|x: int|
                0 <= x < ksv.len() && (seen0.contains(#[trigger] ksv[x]) || exists|p: int|
                    0 <= p < x && ksv[p] == ksv[x]);
            assert(!seen0.contains(ksv[x]) && !(exists|p: int| 0 <= p < x && ksv[p] == ksv[x]));
        }
    }
    false
}

fn validate_variant_list(
    ep: &EndpointConfig,
    vs: &Vec<EndpointVariants>,
    seen_keys: &mut Vec<String>,
    seen_names: &mut Vec<String>,
    j: usize,
) -> (r: Option<ConfigError>)
    ensures
        r == check_variants_from(
            *ep,
            vs@,
            views(old(seen_keys)@),
            views(old(seen_names)@),
            j as int,
        ),
    decreases vs@.len() - j,
{
    if j >= vs.len() {
        return None;
    }
    let v = &vs[j];
    let empty_name = String::new();
    let vname: &String = match &v.name {
        Some(n) => n,
        None => &empty_name,
    };
    proof {
        assert(vname@ == variant_label(vs@[j as int]));
    }
    if has_forbidden_exec(vname.as_str()) {
        return Some(ConfigError::InvalidVariantName);
    }
    if contains_string(seen_names, vname.as_str()) {
        return Some(ConfigError::DuplicateVariantName);
    }
    let empty_keys: Vec<String> = Vec::new();
    let vkeys: &Vec<String> = match &v.json {
        Some(jj) => &jj.keys,
        None => &empty_keys,
    };
    proof {
        assert(views(vkeys@) == json_keys(vs@[j as int].json));
    }
    if append_keys_checked(seen_keys, vkeys) {
        return Some(ConfigError::DuplicateJsonKey);
    }
    let conflict = match (&ep.context, &v.context) {
        (Some(ec), Some(vc)) => (ec.with_system_message.is_some() && vc.with_system_message.is_some())
            || (ec.no_diff.is_some() && vc.no_diff.is_some()),
        _ => false,
    };
    if conflict {
        proof {
            assert(context_conflict(ep.context, vs@[j as int].context));
        }
        return Some(ConfigError::ConflictingContextField);
    }
    proof {
        assert(!context_conflict(ep.context, vs@[j as int].context));
    }
    seen_names.push(vname.clone());
    proof {
        assert(views(seen_names@) =~= views(old(seen_names)@).push(variant_label(vs@[j as int])));
    }
    validate_variant_list(ep, vs, seen_keys, seen_names, j + 1)
}

impl Config {
    /// Validation of one endpoint's variant structure: unique labels free
    /// of forbidden characters, no overlay key given twice across the
    /// endpoint and its variants, no context switch set at both levels.
    pub fn validate_endpoint(ep: &EndpointConfig) -> (r: Option<ConfigError>)
        ensures
            r == spec_validate_endpoint(*ep),
    {
        let vs: &Vec<EndpointVariants> = match &ep.config {
            EndpointTypeConfig::OpenAI { variants: Some(vs), .. } => vs,
            EndpointTypeConfig::Anthropic { variants: Some(vs) } => vs,
            _ => {
                return None;
            },
        };
        let empty_keys: Vec<String> = Vec::new();
        let keys0: &Vec<String> = match &ep.json {
            Some(jj) => &jj.keys,
            None => &empty_keys,
        };
        proof {
            assert(views(keys0@) == json_keys(ep.json));
        }
        let mut seen_keys: Vec<String> = Vec::new();
        let ghost sk0 = views(seen_keys@);
        proof {
            assert(sk0 =~= Seq::<Seq<char>>::empty());
        }
        if append_keys_checked(&mut seen_keys, keys0) {
            proof {
                let ksv = views(keys0@);
                let x = choose|x: int|
                    0 <= x < ksv.len() && (sk0.contains(#[trigger] ksv[x]) || exists|p: int|
                        0 <= p < x && ksv[p] == ksv[x]);
                assert(!sk0.contains(ksv[x]));
                let p = choose|p: int| 0 <= p < x && ksv[p] == ksv[x];
                assert(0 <= p < x < ksv.len() && ksv[p] == ksv[x]);
                assert(has_dup(json_keys(ep.json)));
            }
            return Some(ConfigError::DuplicateJsonKey);
        }
        proof {
            if has_dup(json_keys(ep.json)) {
                let ksv = json_keys(ep.json);
                let (p, q) = choose|p: int, q: int| 0 <= p < q < ksv.len() && ksv[p] == ksv[q];
                assert(ksv[p] == ksv[q] && 0 <= p < q);
                assert(dup_when_appending(sk0, ksv));
            }
        }
        let mut seen_names: Vec<String> = Vec::new();
        proof {
            assert(views(seen_keys@) =~= sk0 + json_keys(ep.json));
            assert(views(seen_keys@) =~= json_keys(ep.json));
            assert(views(seen_names@) =~= Seq::<Seq<char>>::empty());
        }
        validate_variant_list(ep, vs, &mut seen_keys, &mut seen_names, 0)
    }

    /// Full validation: the endpoint list must be nonempty, every endpoint
    /// must pass its checks, and endpoint names must be unique. Succeeds
    /// exactly when no rule is broken, with the validated configuration.
    pub fn validate(endpoints: Vec<EndpointConfig>) -> (r: Result<Config, ConfigError>)
        ensures
            match r {
                Ok(c) => spec_validate_config(endpoints@) is None && c.endpoints@ == endpoints@,
                Err(e) => spec_validate_config(endpoints@) == Some(e),
            },
    {
        if endpoints.len() == 0 {
            return Err(ConfigError::EmptyEndpoints);
        }
        let n = endpoints.len();
        let mut i: usize = 0;
        while i < n
            invariant
                i <= n,
                n == endpoints@.len(),
                check_endpoints_from(endpoints@, 0) == check_endpoints_from(endpoints@, i as int),
            decreases n - i,
        {
            let ep = &endpoints[i];
            if ep.name.as_str().unicode_len() == 0 {
                return Err(ConfigError::EmptyName);
            }
            if has_forbidden_exec(ep.name.as_str()) {
                return Err(ConfigError::InvalidName);
            }
            if ep.url.as_str().unicode_len() == 0 {
                return Err(ConfigError::EmptyUrl);
            }
            match Self::validate_endpoint(ep) {
                Some(e) => {
                    return Err(e);
                },
                None => {},
            }
            i += 1;
        }
        let mut i: usize = 1;
        while i < n
            invariant
                1 <= i <= n || n < 1,
                n == endpoints@.len(),
                n > 0,
                check_endpoints_from(endpoints@, 0) is None,
                check_dup_names_from(endpoints@, 1) == check_dup_names_from(endpoints@, i as int),
            decreases n - i,
        {
            let mut j: usize = 0;
            while j < i
                invariant
                    j <= i,
                    i < n,
                    n == endpoints@.len(),
                    n > 0,
                    check_endpoints_from(endpoints@, 0) is None,
                    check_dup_names_from(endpoints@, 1) == check_dup_names_from(
                        endpoints@,
                        i as int,
                    ),
                    forall|q: int|
                        0 <= q < j ==> (#[trigger] endpoints@[q]).name@ != endpoints@[i as int].name@,
                decreases i - j,
            {
                if str_eq(endpoints[j].name.as_str(), endpoints[i].name.as_str()) {
                    proof {
                        assert(endpoints@[j as int].name@ == endpoints@[i as int].name@);
                    }
                    return Err(ConfigError::DuplicateName);
                }
                j += 1;
            }
            proof {
                if exists|q: int|
                    0 <= q < i && (#[trigger] endpoints@[q]).name@ == endpoints@[i as int].name@ {
                    let q = choose|q: int|
                        0 <= q < i && (#[trigger] endpoints@[q]).name@
                            == endpoints@[i as int].name@;
                    assert(endpoints@[q].name@ != endpoints@[i as int].name@);
                }
            }
            i += 1;
        }
        Ok(Config { endpoints })
    }

    /// All configured endpoints, in configuration order.
    pub fn get_all_endpoints(&self) -> (r: &Vec<EndpointConfig>)
        ensures
            r == &self.endpoints,
    {
        &self.endpoints
    }
}

} // verus!
