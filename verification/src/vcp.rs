//! The VCP service endpoints: how configured addresses are completed and normalized, how
//! HTTP answers are classified, and the shapes of probe reports and admin snapshots.
use vstd::prelude::*;
use crate::sorted::{strictly_sorted, sviews, set_of, set_insert};
use crate::text::{chars_of, string_of, push_str, push_all, trim, trimmed, has_prefix, has_suffix, contains_seq, contains, starts_with_str, ends_with_str, replace_seq, replace_str, trim_end_char, trim_end_char_chars, slice_of, find_char, has_char, first_index, split_on, first_occurrence_from, find_str_from, occurs_at, owned};
use crate::host::{duration_from_millis, millis_duration};
use std::time::Duration;

verus! {

pub const DEFAULT_VCP_CHAT_ENDPOINT: &'static str = "http://127.0.0.1:5890/v1/chat/completions";

pub const DEFAULT_VCP_ADMIN_ENDPOINT: &'static str = "http://127.0.0.1:6005";

pub const DEFAULT_VCP_WS_ENDPOINT: &'static str = "ws://127.0.0.1:6005";

#[derive(Clone, Debug, PartialEq, Eq)]
pub struct VcpRuntimeConfig {
    pub chat_endpoint: String,
    pub api_key: Option<String>,
    pub admin_endpoint: String,
    pub admin_auth_header: Option<String>,
    pub timeout_ms: u64,
}

impl Default for VcpRuntimeConfig {
    fn default() -> (c: VcpRuntimeConfig)
        ensures
            c.chat_endpoint@ == DEFAULT_VCP_CHAT_ENDPOINT@,
            c.api_key is None,
            c.admin_endpoint@ == DEFAULT_VCP_ADMIN_ENDPOINT@,
            c.admin_auth_header is None,
            c.timeout_ms == 2_000,
    {
        VcpRuntimeConfig {
            chat_endpoint: owned(DEFAULT_VCP_CHAT_ENDPOINT),
            api_key: None,
            admin_endpoint: owned(DEFAULT_VCP_ADMIN_ENDPOINT),
            admin_auth_header: None,
            timeout_ms: 2_000,
        }
    }
}

impl VcpRuntimeConfig {
    /// The request timeout in milliseconds: at least 200.
    pub fn timeout_millis(&self) -> (ms: u64)
        ensures
            ms == if self.timeout_ms >= 200 { self.timeout_ms } else { 200 },
    {
        if self.timeout_ms >= 200 {
            self.timeout_ms
        } else {
            200
        }
    }

    pub fn timeout(&self) -> (d: Duration)
        ensures
            d == millis_duration(if self.timeout_ms >= 200 { self.timeout_ms } else { 200 }),
    {
        duration_from_millis(self.timeout_millis())
    }

    pub fn normalized_chat_endpoint(&self) -> (s: String)
        ensures
            s@ == chat_endpoint_of(self.chat_endpoint@),
    {
        normalize_vcp_chat_endpoint(self.chat_endpoint.as_str())
    }

    pub fn normalized_admin_endpoint(&self) -> (s: String)
        ensures
            s@ == admin_endpoint_of(self.admin_endpoint@),
    {
        normalize_vcp_admin_endpoint(self.admin_endpoint.as_str())
    }
}

#[derive(Clone, Copy, Debug, PartialEq, Eq, Structural)]
pub enum VcpHealthCategory {
    Connected,
    Unauthorized,
    ApiPathNotFound,
    Timeout,
    InvalidEndpoint,
    NetworkError,
    ServerError,
    ClientError,
    UnknownError,
}

impl VcpHealthCategory {
    pub fn is_connected(self) -> (b: bool)
        ensures
            b == (self == VcpHealthCategory::Connected),
    {
        match self {
            VcpHealthCategory::Connected => true,
            _ => false,
        }
    }
}

#[derive(Clone, Debug, PartialEq, Eq)]
pub struct VcpEndpointProbe {
    pub category: VcpHealthCategory,
    pub status_code: Option<u16>,
    pub detail: String,
}

#[derive(Clone, Debug, PartialEq, Eq)]
pub struct VcpProbeReport {
    pub chat: VcpEndpointProbe,
    pub admin: VcpEndpointProbe,
    pub models: Vec<String>,
}

#[derive(Clone, Debug, PartialEq, Eq)]
pub struct VcpPluginSummary {
    pub name: String,
    pub enabled: Option<bool>,
}

#[derive(Clone, Debug, PartialEq, Eq)]
pub struct VcpMetricEntry {
    pub key: String,
    pub value: String,
}

#[derive(Clone, Debug, PartialEq, Eq)]
pub struct VcpAdminSnapshot {
    pub generated_at_epoch_ms: u64,
    pub models: Vec<String>,
    pub agents: Vec<String>,
    pub plugins: Vec<VcpPluginSummary>,
    pub rag_tags: Vec<String>,
    pub schedules: Vec<String>,
    pub clusters: Vec<String>,
    pub config_items: Vec<VcpMetricEntry>,
    pub system_metrics: Vec<VcpMetricEntry>,
    pub warnings: Vec<String>,
}

/// `t` with `http://` put in front unless it already names http or https.
pub open spec fn with_scheme(t: Seq<char>) -> Seq<char> {
    if has_prefix(t, "http://"@) || has_prefix(t, "https://"@) {
        t
    } else {
        "http://"@ + t
    }
}

/// The chat completions URL a configured endpoint means: the default when blank; a scheme
/// added; kept when it already names a completions path; a models path turned into the
/// completions path; else the completions path appended.
pub open spec fn chat_endpoint_of(raw: Seq<char>) -> Seq<char> {
    let t = trim(raw);
    if t.len() == 0 {
        DEFAULT_VCP_CHAT_ENDPOINT@
    } else {
        let n = with_scheme(t);
        if contains_seq(n, "/v1/chat/completions"@) || contains_seq(n, "/v1/chatvcp/completions"@) {
            n
        } else if contains_seq(n, "/v1/models"@) {
            replace_seq(n, "/v1/models"@, "/v1/chat/completions"@)
        } else {
            trim_end_char(n, '/') + "/v1/chat/completions"@
        }
    }
}

/// What precedes the first occurrence of `p` in `s` (all of `s` without one).
pub open spec fn before_first(s: Seq<char>, p: Seq<char>) -> Seq<char> {
    match first_occurrence_from(s, p, 0) {
        Some(i) => if 0 <= i <= s.len() { s.take(i) } else { s },
        None => s,
    }
}

/// The admin base URL a configured endpoint means: the default when blank; a scheme added;
/// API paths removed; everything from `/admin_api` on dropped; trailing `/` dropped.
pub open spec fn admin_endpoint_of(raw: Seq<char>) -> Seq<char> {
    let t = trim(raw);
    if t.len() == 0 {
        DEFAULT_VCP_ADMIN_ENDPOINT@
    } else {
        let n0 = with_scheme(t);
        let n1 = replace_seq(n0, "/v1/chat/completions"@, Seq::empty());
        let n2 = replace_seq(n1, "/v1/chatvcp/completions"@, Seq::empty());
        let n3 = replace_seq(n2, "/v1/models"@, Seq::empty());
        let n4 = replace_seq(n3, "/admin_api/check-auth"@, Seq::empty());
        trim_end_char(before_first(n4, "/admin_api"@), '/')
    }
}

fn with_scheme_exec(t: &[char]) -> (r: Vec<char>)
    ensures
        r@ == with_scheme(t@),
{
    if starts_with_str(t, "http://") || starts_with_str(t, "https://") {
        slice_of(t, 0, t.len())
    } else {
        let mut r = chars_of("http://");
        push_all(&mut r, t);
        r
    }
}

pub fn normalize_vcp_chat_endpoint(raw: &str) -> (s: String)
    ensures
        s@ == chat_endpoint_of(raw@),
{
    let t = trimmed(raw);
    if t.len() == 0 {
        return owned(DEFAULT_VCP_CHAT_ENDPOINT);
    }
    let n = with_scheme_exec(&t);
    proof {
        assert(t@.subrange(0, t@.len() as int) =~= t@);
    }
    let a = chars_of("/v1/chat/completions");
    let b = chars_of("/v1/chatvcp/completions");
    let m = chars_of("/v1/models");
    if contains(&n, &a) || contains(&n, &b) {
        return string_of(&n);
    }
    if contains(&n, &m) {
        let r = replace_str(&n, "/v1/models", "/v1/chat/completions");
        return string_of(&r);
    }
    let mut base = trim_end_char_chars(&n, '/');
    push_all(&mut base, &a);
    string_of(&base)
}

fn before_first_exec(s: &[char], p: &str) -> (r: Vec<char>)
    ensures
        r@ == before_first(s@, p@),
{
    match find_str_from(s, p, 0) {
        Some(i) => {
            proof {
                assert(exists|j: int| 0 <= j && occurs_at(s@, p@, j));
                let c = choose|j: int| 0 <= j && occurs_at(s@, p@, j) && forall|m: int| 0 <= m < j ==> !occurs_at(s@, p@, m);
                if c < i {
                    assert(!occurs_at(s@, p@, c));
                } else if c > i {
                    assert(!occurs_at(s@, p@, i as int));
                }
            }
            slice_of(s, 0, i)
        },
        None => {
            assert(first_occurrence_from(s@, p@, 0) is None);
            slice_of(s, 0, s.len())
        },
    }
}

pub fn normalize_vcp_admin_endpoint(raw: &str) -> (s: String)
    ensures
        s@ == admin_endpoint_of(raw@),
{
    let t = trimmed(raw);
    if t.len() == 0 {
        return owned(DEFAULT_VCP_ADMIN_ENDPOINT);
    }
    let n0 = with_scheme_exec(&t);
    proof {
        assert(t@.subrange(0, t@.len() as int) =~= t@);
    }
    proof {
        reveal_strlit("");
        assert(""@ =~= Seq::<char>::empty());
    }
    let n1 = replace_str(&n0, "/v1/chat/completions", "");
    let n2 = replace_str(&n1, "/v1/chatvcp/completions", "");
    let n3 = replace_str(&n2, "/v1/models", "");
    let n4 = replace_str(&n3, "/admin_api/check-auth", "");
    let head = before_first_exec(&n4, "/admin_api");
    let r = trim_end_char_chars(&head, '/');
    string_of(&r)
}

/// The websocket URL of an admin endpoint: the same host over `wss` or `ws`.
pub open spec fn ws_endpoint_of(admin: Seq<char>) -> Seq<char> {
    let base = admin_endpoint_of(admin);
    if has_prefix(base, "https://"@) {
        "wss://"@ + base.skip(8)
    } else if has_prefix(base, "http://"@) {
        "ws://"@ + base.skip(7)
    } else {
        DEFAULT_VCP_WS_ENDPOINT@
    }
}

pub fn infer_vcp_ws_endpoint(admin_endpoint: &str) -> (s: String)
    ensures
        s@ == ws_endpoint_of(admin_endpoint@),
{
    proof {
        reveal_strlit("https://");
        reveal_strlit("http://");
    }
    let base_s = normalize_vcp_admin_endpoint(admin_endpoint);
    let base = chars_of(base_s.as_str());
    if starts_with_str(&base, "https://") {
        let mut r = chars_of("wss://");
        let rest = slice_of(&base, 8, base.len());
        assert(rest@ =~= base@.skip(8));
        push_all(&mut r, &rest);
        return string_of(&r);
    }
    if starts_with_str(&base, "http://") {
        let mut r = chars_of("ws://");
        let rest = slice_of(&base, 7, base.len());
        assert(rest@ =~= base@.skip(7));
        push_all(&mut r, &rest);
        return string_of(&r);
    }
    owned(DEFAULT_VCP_WS_ENDPOINT)
}

/// The models URL that goes with a chat endpoint.
pub open spec fn models_endpoint_of(chat: Seq<char>) -> Seq<char> {
    let n = chat_endpoint_of(chat);
    if contains_seq(n, "/v1/chat/completions"@) {
        replace_seq(n, "/v1/chat/completions"@, "/v1/models"@)
    } else if contains_seq(n, "/v1/chatvcp/completions"@) {
        replace_seq(n, "/v1/chatvcp/completions"@, "/v1/models"@)
    } else if contains_seq(n, "/v1/models"@) {
        n
    } else {
        trim_end_char(n, '/') + "/v1/models"@
    }
}

pub fn build_models_endpoint(chat_endpoint: &str) -> (s: String)
    ensures
        s@ == models_endpoint_of(chat_endpoint@),
{
    let ns = normalize_vcp_chat_endpoint(chat_endpoint);
    let n = chars_of(ns.as_str());
    let a = chars_of("/v1/chat/completions");
    let b = chars_of("/v1/chatvcp/completions");
    let m = chars_of("/v1/models");
    if contains(&n, &a) {
        return string_of(&replace_str(&n, "/v1/chat/completions", "/v1/models"));
    }
    if contains(&n, &b) {
        return string_of(&replace_str(&n, "/v1/chatvcp/completions", "/v1/models"));
    }
    if contains(&n, &m) {
        return ns;
    }
    let mut base = trim_end_char_chars(&n, '/');
    push_all(&mut base, &m);
    string_of(&base)
}

/// The admin API URL for `path` under an admin endpoint: `/admin_api` alone for a blank
/// path, a full URL as it is, a path under `/admin_api` appended, anything else put under
/// `/admin_api/`.
pub open spec fn admin_api_endpoint_of(admin: Seq<char>, path: Seq<char>) -> Seq<char> {
    let base = admin_endpoint_of(admin);
    let p = trim(path);
    if p.len() == 0 {
        base + "/admin_api"@
    } else if has_prefix(p, "http://"@) || has_prefix(p, "https://"@) {
        p
    } else if has_prefix(p, "/admin_api"@) {
        base + p
    } else {
        base + "/admin_api"@ + (if p[0] == '/' { p } else { seq!['/'] + p })
    }
}

pub fn build_admin_api_endpoint(admin_endpoint: &str, path: &str) -> (s: String)
    ensures
        s@ == admin_api_endpoint_of(admin_endpoint@, path@),
{
    let base_s = normalize_vcp_admin_endpoint(admin_endpoint);
    let base = chars_of(base_s.as_str());
    let p = trimmed(path);
    if p.len() == 0 {
        let mut r = base;
        push_str(&mut r, "/admin_api");
        return string_of(&r);
    }
    if starts_with_str(&p, "http://") || starts_with_str(&p, "https://") {
        return string_of(&p);
    }
    if starts_with_str(&p, "/admin_api") {
        let mut r = base;
        push_all(&mut r, &p);
        return string_of(&r);
    }
    let mut r = base;
    push_str(&mut r, "/admin_api");
    if p[0] != '/' {
        r.push('/');
    }
    push_all(&mut r, &p);
    proof {
        if p@[0] != '/' {
            assert(r@ =~= base@ + "/admin_api"@ + (seq!['/'] + p@));
        }
    }
    string_of(&r)
}

/// The health category of an HTTP status.
pub open spec fn category_of(code: u16) -> VcpHealthCategory {
    if 200 <= code <= 299 {
        VcpHealthCategory::Connected
    } else if code == 401 || code == 403 {
        VcpHealthCategory::Unauthorized
    } else if code == 404 {
        VcpHealthCategory::ApiPathNotFound
    } else if 500 <= code <= 599 {
        VcpHealthCategory::ServerError
    } else if 400 <= code <= 499 {
        VcpHealthCategory::ClientError
    } else {
        VcpHealthCategory::UnknownError
    }
}

pub fn classify_http_status_to_category(code: u16) -> (c: VcpHealthCategory)
    ensures
        c == category_of(code),
{
    if 200 <= code && code <= 299 {
        VcpHealthCategory::Connected
    } else if code == 401 || code == 403 {
        VcpHealthCategory::Unauthorized
    } else if code == 404 {
        VcpHealthCategory::ApiPathNotFound
    } else if 500 <= code && code <= 599 {
        VcpHealthCategory::ServerError
    } else if 400 <= code && code <= 499 {
        VcpHealthCategory::ClientError
    } else {
        VcpHealthCategory::UnknownError
    }
}

/// The `host:port` an endpoint connects to (port 80 when none is given).
pub open spec fn host_port_of(endpoint: Seq<char>) -> Result<Seq<char>, Seq<char>> {
    let t = trim(endpoint);
    if t.len() == 0 {
        Err("empty endpoint"@)
    } else {
        let ws = if has_prefix(t, "http://"@) {
            t.skip(7)
        } else if has_prefix(t, "https://"@) {
            t.skip(8)
        } else {
            t
        };
        let host = trim(split_on(ws, '/')[0]);
        if host.len() == 0 {
            Err("invalid endpoint host"@)
        } else if has_char(host, ':') {
            Ok(host)
        } else {
            Ok(host + ":80"@)
        }
    }
}

pub fn parse_host_port_from_endpoint(endpoint: &str) -> (r: Result<String, String>)
    ensures
        match host_port_of(endpoint@) {
            Ok(h) => r matches Ok(s) && s@ == h,
            Err(m) => r matches Err(e) && e@ == m,
        },
{
    proof {
        reveal_strlit("https://");
        reveal_strlit("http://");
    }
    let t = trimmed(endpoint);
    if t.len() == 0 {
        return Err(owned("empty endpoint"));
    }
    let ws = if starts_with_str(&t, "http://") {
        let x = slice_of(&t, 7, t.len());
        assert(x@ =~= t@.skip(7));
        x
    } else if starts_with_str(&t, "https://") {
        let x = slice_of(&t, 8, t.len());
        assert(x@ =~= t@.skip(8));
        x
    } else {
        let x = slice_of(&t, 0, t.len());
        assert(x@ =~= t@);
        x
    };
    let parts = crate::text::split_char(&ws, '/');
    assert(crate::text::views(parts@)[0] == parts@[0]@);
    let host = crate::text::trim_chars(&parts[0]);
    if host.len() == 0 {
        return Err(owned("invalid endpoint host"));
    }
    match find_char(&host, ':', 0) {
        Some(i) => {
            assert(host@[i as int] == ':');
            Ok(string_of(&host))
        },
        None => {
            assert(!has_char(host@, ':'));
            let mut h = host;
            push_str(&mut h, ":80");
            Ok(string_of(&h))
        },
    }
}

/// The strings, sorted, each once (sort, then drop repeats).
pub fn dedup_string_vec(values: &Vec<String>) -> (r: Vec<String>)
    ensures
        strictly_sorted(sviews(r@)),
        set_of(r@) == set_of(values@),
{
    let mut out: Vec<String> = Vec::new();
    let mut i: usize = 0;
    while i < values.len()
        invariant
            i <= values.len(),
            strictly_sorted(sviews(out@)),
            set_of(out@) == set_of(values@.take(i as int)),
        decreases values.len() - i,
    {
        set_insert(&mut out, values[i].clone());
        proof {
            assert(values@.take(i + 1) =~= values@.take(i as int).push(values@[i as int]));
            let a = sviews(values@.take(i + 1));
            let b = sviews(values@.take(i as int));
            let x = values@[i as int]@;
            assert(a =~= b.push(x));
            assert forall|y: Seq<char>| #[trigger] a.contains(y) <==> (b.contains(y) || y == x) by {
                if a.contains(y) {
                    let k = choose|k: int| 0 <= k < a.len() && a[k] == y;
                    if k < b.len() {
                        assert(b[k] == y);
                    }
                }
                if b.contains(y) {
                    let k = choose|k: int| 0 <= k < b.len() && b[k] == y;
                    assert(a[k] == y);
                }
                if y == x {
                    assert(a[b.len() as int] == y);
                }
            }
            assert(set_of(values@.take(i + 1)) =~= set_of(values@.take(i as int)).insert(x));
        }
        i += 1;
    }
    assert(values@.take(values.len() as int) =~= values@);
    out
}

/// The chat completions URL of a configured VCP URL: blank stays blank; a completions path
/// is kept; `/v1` or `/v1/` (or a trailing `/`) gets the completions path; else it is
/// appended.
pub open spec fn completion_url_of(raw: Seq<char>) -> Seq<char> {
    let t = trim(raw);
    if t.len() == 0 {
        Seq::empty()
    } else if contains_seq(t, "/v1/chat/completions"@) || contains_seq(t, "/v1/chatvcp/completions"@) {
        t
    } else if has_suffix(t, "/v1"@) {
        t.take(t.len() - 3) + "/v1/chat/completions"@
    } else if has_suffix(t, "/v1/"@) {
        t.take(t.len() - 4) + "/v1/chat/completions"@
    } else if has_suffix(t, "/"@) {
        t.take(t.len() - 1) + "/v1/chat/completions"@
    } else {
        t + "/v1/chat/completions"@
    }
}

pub fn complete_vcp_url(raw: &str) -> (s: String)
    ensures
        s@ == completion_url_of(raw@),
{
    proof {
        reveal_strlit("/v1");
        reveal_strlit("/v1/");
        reveal_strlit("/");
    }
    let t = trimmed(raw);
    if t.len() == 0 {
        return string_of(&t);
    }
    let a = chars_of("/v1/chat/completions");
    let b = chars_of("/v1/chatvcp/completions");
    if contains(&t, &a) || contains(&t, &b) {
        return string_of(&t);
    }
    let cut: usize = if ends_with_str(&t, "/v1") {
        3
    } else if ends_with_str(&t, "/v1/") {
        4
    } else if ends_with_str(&t, "/") {
        1
    } else {
        0
    };
    let mut r = slice_of(&t, 0, t.len() - cut);
    push_all(&mut r, &a);
    proof {
        if cut == 0 {
            assert(t@.subrange(0, t@.len() as int) =~= t@);
        }
    }
    string_of(&r)
}

} // verus!
