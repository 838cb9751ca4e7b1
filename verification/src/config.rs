//! The rules of settings: which may be saved, what of them is shown, and what
//! stays as it was.

use vstd::prelude::*;
use vstd::string::StringExecFns;

use crate::code_graph::{is_one_of, one_of};
use crate::model::{DbConfig, LlmConfig, Settings};
use crate::text::{is_ascii_digit, is_ascii_letter, same, texts, to_chars, trim, trimmed};
use crate::web::{address_of, parse_address, AddressModel};

verus! {

/// What is shown of a secret.
pub const HIDDEN: &'static str = "********";

/// A secret as it is shown: nothing of it, but whether there is one.
pub open spec fn shown(secret: Seq<char>) -> Seq<char> {
    if secret.len() == 0 {
        secret
    } else {
        HIDDEN@
    }
}

/// A secret as it is saved: where it comes back as it was shown, it stays what
/// it was.
pub open spec fn kept(new: Seq<char>, old_secret: Seq<char>) -> Seq<char> {
    if new == HIDDEN@ {
        old_secret
    } else {
        new
    }
}

/// Settings without their secrets are the same.
pub open spec fn same_but_secrets(a: Settings, b: Settings) -> bool {
    &&& a.db == (DbConfig { password: a.db.password, ..b.db })
    &&& a.llm == (LlmConfig {
        api_key: a.llm.api_key,
        proxy_password: a.llm.proxy_password,
        ..b.llm
    })
    &&& a.source_roots == b.source_roots
    &&& a.output_roots == b.output_roots
    &&& a.max_jobs == b.max_jobs
    &&& a.max_file_bytes == b.max_file_bytes
    &&& a.max_files == b.max_files
    &&& a.retention_days == b.retention_days
    &&& a.cache_max_mb == b.cache_max_mb
}

/// A secret as it is shown.
fn conceal(secret: String) -> (r: String)
    ensures
        r@ == shown(secret@),
{
    if secret.as_str().unicode_len() == 0 {
        secret
    } else {
        String::from_str(HIDDEN)
    }
}

/// Settings as they are shown: without their secrets.
pub fn redacted(s: Settings) -> (r: Settings)
    ensures
        r.db.password@ == shown(s.db.password@),
        r.llm.api_key@ == shown(s.llm.api_key@),
        r.llm.proxy_password@ == shown(s.llm.proxy_password@),
        same_but_secrets(r, s),
{
    let mut r = s;
    let password = conceal(r.db.password.clone());
    let api_key = conceal(r.llm.api_key.clone());
    let proxy_password = conceal(r.llm.proxy_password.clone());
    r.db.password = password;
    r.llm.api_key = api_key;
    r.llm.proxy_password = proxy_password;
    r
}

/// Keeps the secrets that come back as they were shown.
pub fn preserve_secrets(new: &mut Settings, old_settings: &Settings)
    ensures
        final(new).db.password@ == kept(old(new).db.password@, old_settings.db.password@),
        final(new).llm.api_key@ == kept(old(new).llm.api_key@, old_settings.llm.api_key@),
        final(new).llm.proxy_password@ == kept(
            old(new).llm.proxy_password@,
            old_settings.llm.proxy_password@,
        ),
        same_but_secrets(*final(new), *old(new)),
{
    if same(new.db.password.as_str(), HIDDEN) {
        new.db.password = old_settings.db.password.clone();
    }
    if same(new.llm.api_key.as_str(), HIDDEN) {
        new.llm.api_key = old_settings.llm.api_key.clone();
    }
    if same(new.llm.proxy_password.as_str(), HIDDEN) {
        new.llm.proxy_password = old_settings.llm.proxy_password.clone();
    }
}

/// Settings that are saved as they were shown keep their secrets, whatever these
/// are.
pub proof fn saving_what_is_shown_changes_no_secret(secret: Seq<char>)
    ensures
        kept(shown(secret), secret) == secret,
{
    reveal_strlit("********");
    if secret.len() == 0 {
        assert(secret != HIDDEN@);
    }
}

/// Nothing of a secret is shown: two secrets that are not empty look the same.
pub proof fn secrets_look_alike(a: Seq<char>, b: Seq<char>)
    requires
        a.len() > 0,
        b.len() > 0,
    ensures
        shown(a) == shown(b),
{
}

/// The first `count` entries without white space at their ends, and without
/// those that are blank.
pub open spec fn entries(list: Seq<Seq<char>>, count: nat) -> Seq<Seq<char>>
    decreases count,
{
    if count == 0 {
        Seq::empty()
    } else {
        let so_far = entries(list, (count - 1) as nat);
        let entry = trim(list[count - 1]);
        if entry.len() == 0 {
            so_far
        } else {
            so_far.push(entry)
        }
    }
}

/// The entries of a list without white space at their ends, and without those
/// that are blank.
pub fn clean_entries(list: &Vec<String>) -> (r: Vec<String>)
    ensures
        texts(r@) == entries(texts(list@), list@.len()),
{
    let ghost all = texts(list@);
    let mut r: Vec<String> = Vec::new();
    let mut i: usize = 0;
    assert(texts(r@) =~= Seq::empty());
    while i < list.len()
        invariant
            i <= list@.len(),
            all == texts(list@),
            texts(r@) == entries(all, i as nat),
        decreases list@.len() - i,
    {
        assert(all[i as int] == list@[i as int]@);
        let entry = trimmed(list[i].as_str());
        if entry.as_str().unicode_len() > 0 {
            assert(texts(r@.push(entry)) =~= texts(r@).push(entry@));
            r.push(entry);
        }
        i += 1;
    }
    r
}

// ---------------------------------------------------------------------------
// Validation
// ---------------------------------------------------------------------------

/// What is wrong with settings.
#[derive(Clone, Copy, Debug, PartialEq, Eq, Structural)]
pub enum SettingsFault {
    Roots,
    Retention,
    DatabaseName,
    Database,
    Concurrency,
    SourceSize,
    Context,
    NoRoom,
    TokenMode,
    OutputParameter,
    Reasoning,
    Effort,
    Proxy,
    Limits,
    Prices,
    Url,
    UrlParts,
}

/// What the application finds of settings: whether every root that is not blank
/// is an absolute directory that exists, and whether the prices are finite and
/// not negative.
#[derive(Clone, Copy, Debug, PartialEq, Eq, Structural)]
pub struct Observed {
    pub roots_exist: bool,
    pub prices_valid: bool,
}

/// A text is a name: letters, digits and underscores.
pub open spec fn plain_name(s: Seq<char>) -> bool {
    s.len() > 0 && forall|i: int|
        0 <= i < s.len() ==> is_ascii_letter(#[trigger] s[i]) || is_ascii_digit(s[i]) || s[i] == '_'
}

/// The databases that may be used.
pub open spec fn databases() -> Seq<&'static str> {
    seq!["doccraft_agent", "doccraft_agent_test"]
}

/// The ways to count tokens.
pub open spec fn token_modes() -> Seq<&'static str> {
    seq!["estimate", "server"]
}

/// The parameters that limit an output.
pub open spec fn output_parameters() -> Seq<&'static str> {
    seq!["max_tokens", "max_completion_tokens"]
}

/// The ways to reason.
pub open spec fn reasoning_modes() -> Seq<&'static str> {
    seq!["default", "off", "on"]
}

/// The parameters that turn reasoning on or off.
pub open spec fn reasoning_parameters() -> Seq<&'static str> {
    seq!["reasoning_effort", "enable_thinking"]
}

/// How hard to reason.
pub open spec fn efforts() -> Seq<&'static str> {
    seq!["minimal", "low", "medium", "high", "xhigh", "max"]
}

/// The ways to use a proxy.
pub open spec fn proxy_modes() -> Seq<&'static str> {
    seq!["none", "system", "custom"]
}

/// The schemes of an interface.
pub open spec fn schemes() -> Seq<&'static str> {
    seq!["http", "https"]
}

/// The limits of a context are sound.
pub open spec fn context_sound(l: LlmConfig) -> bool {
    &&& 1024 <= l.context_limit <= 200_000
    &&& l.model_context_limit >= 1024
    &&& 0 < l.max_output_tokens <= l.model_max_output
    &&& 5 <= l.safety_percent <= 80
}

/// What a context leaves once its margin is kept.
pub open spec fn usable(l: LlmConfig) -> int {
    (if l.context_limit < l.model_context_limit {
        l.context_limit as int
    } else {
        l.model_context_limit as int
    }) * (100 - l.safety_percent) / 100
}

/// An address without credentials, query or fragment.
pub open spec fn plain_address(a: AddressModel) -> bool {
    one_of(a.scheme, schemes()) && a.username.len() == 0 && !a.has_password && !a.has_query
        && !a.has_fragment
}

/// The first thing that is wrong with settings.
pub open spec fn settings_fault(s: Settings, o: Observed) -> Option<SettingsFault> {
    let l = s.llm;
    if !o.roots_exist {
        Some(SettingsFault::Roots)
    } else if s.retention_days == 0 || s.retention_days > 3650 || s.cache_max_mb > 102400 {
        Some(SettingsFault::Retention)
    } else if !plain_name(s.db.database@) {
        Some(SettingsFault::DatabaseName)
    } else if !one_of(s.db.database@, databases()) {
        Some(SettingsFault::Database)
    } else if !(1 <= s.db.max_connections <= 32 && 1 <= s.max_jobs <= 8 && 1 <= l.concurrency
        <= 16) {
        Some(SettingsFault::Concurrency)
    } else if !(0 < s.max_file_bytes <= 100 * 1024 * 1024 && 0 < s.max_files <= 1_000_000) {
        Some(SettingsFault::SourceSize)
    } else if !context_sound(l) {
        Some(SettingsFault::Context)
    } else if l.max_output_tokens + 512 >= usable(l) {
        Some(SettingsFault::NoRoom)
    } else if !one_of(l.token_mode@, token_modes()) || (l.token_mode@ == "server"@
        && l.token_count_url@.len() == 0) {
        Some(SettingsFault::TokenMode)
    } else if !one_of(l.output_parameter@, output_parameters()) {
        Some(SettingsFault::OutputParameter)
    } else if !one_of(l.reasoning@, reasoning_modes()) || !one_of(
        l.reasoning_parameter@,
        reasoning_parameters(),
    ) {
        Some(SettingsFault::Reasoning)
    } else if !one_of(l.effort@, efforts()) {
        Some(SettingsFault::Effort)
    } else if !one_of(l.proxy_mode@, proxy_modes()) || (l.proxy_mode@ == "custom"@
        && l.proxy_url@.len() == 0) {
        Some(SettingsFault::Proxy)
    } else if !(5 <= l.timeout_seconds <= 900 && l.retries <= 6 && l.rpm > 0 && l.tpm >= 1024) {
        Some(SettingsFault::Limits)
    } else if !o.prices_valid {
        Some(SettingsFault::Prices)
    } else {
        match address_of(l.base_url@) {
            None => Some(SettingsFault::Url),
            Some(a) => if plain_address(a) {
                None
            } else {
                Some(SettingsFault::UrlParts)
            },
        }
    }
}

/// Whether a text is a name.
fn is_plain_name(s: &str) -> (r: bool)
    ensures
        r == plain_name(s@),
{
    let chars = to_chars(s);
    if chars.len() == 0 {
        return false;
    }
    let mut i: usize = 0;
    while i < chars.len()
        invariant
            i <= chars@.len(),
            chars@ == s@,
            forall|k: int|
                0 <= k < i ==> is_ascii_letter(#[trigger] s@[k]) || is_ascii_digit(s@[k]) || s@[k]
                    == '_',
        decreases chars@.len() - i,
    {
        let c = chars[i];
        let fine = ('a' <= c && c <= 'z') || ('A' <= c && c <= 'Z') || ('0' <= c && c <= '9') || c
            == '_';
        if !fine {
            assert(!(is_ascii_letter(s@[i as int]) || is_ascii_digit(s@[i as int]) || s@[i as int]
                == '_'));
            return false;
        }
        i += 1;
    }
    true
}

/// Whether a text is one of some choices.
fn chosen(s: &str, choices: &[&str]) -> (r: bool)
    ensures
        r == one_of(s@, choices@),
{
    is_one_of(s, choices)
}

/// What is wrong with the settings of a model, but for its address and prices.
fn llm_fault(l: &LlmConfig) -> (r: Option<SettingsFault>)
    ensures
        r == (if !context_sound(*l) {
            Some(SettingsFault::Context)
        } else if l.max_output_tokens + 512 >= usable(*l) {
            Some(SettingsFault::NoRoom)
        } else if !one_of(l.token_mode@, token_modes()) || (l.token_mode@ == "server"@
            && l.token_count_url@.len() == 0) {
            Some(SettingsFault::TokenMode)
        } else if !one_of(l.output_parameter@, output_parameters()) {
            Some(SettingsFault::OutputParameter)
        } else if !one_of(l.reasoning@, reasoning_modes()) || !one_of(
            l.reasoning_parameter@,
            reasoning_parameters(),
        ) {
            Some(SettingsFault::Reasoning)
        } else if !one_of(l.effort@, efforts()) {
            Some(SettingsFault::Effort)
        } else if !one_of(l.proxy_mode@, proxy_modes()) || (l.proxy_mode@ == "custom"@
            && l.proxy_url@.len() == 0) {
            Some(SettingsFault::Proxy)
        } else if !(5 <= l.timeout_seconds <= 900 && l.retries <= 6 && l.rpm > 0 && l.tpm
            >= 1024) {
            Some(SettingsFault::Limits)
        } else {
            None
        }),
{
    if l.context_limit < 1024 || l.context_limit > 200_000 || l.model_context_limit < 1024
        || l.max_output_tokens == 0 || l.max_output_tokens > l.model_max_output || l.safety_percent
        < 5 || l.safety_percent > 80 {
        return Some(SettingsFault::Context);
    }
    let context: u64 = if l.context_limit < l.model_context_limit {
        l.context_limit as u64
    } else {
        l.model_context_limit as u64
    };
    let share: u64 = (100 - l.safety_percent) as u64;
    proof {
        assert(context * share <= 200_000 * 95) by (nonlinear_arith)
            requires
                context <= 200_000,
                share <= 95,
        ;
    }
    if l.max_output_tokens as u64 + 512 >= context * share / 100 {
        return Some(SettingsFault::NoRoom);
    }
    let modes = ["estimate", "server"];
    assert(modes@ =~= token_modes());
    if !chosen(l.token_mode.as_str(), modes.as_slice()) || (same(l.token_mode.as_str(), "server")
        && l.token_count_url.as_str().unicode_len() == 0) {
        return Some(SettingsFault::TokenMode);
    }
    let outputs = ["max_tokens", "max_completion_tokens"];
    assert(outputs@ =~= output_parameters());
    if !chosen(l.output_parameter.as_str(), outputs.as_slice()) {
        return Some(SettingsFault::OutputParameter);
    }
    let reasoning = ["default", "off", "on"];
    let parameters = ["reasoning_effort", "enable_thinking"];
    assert(reasoning@ =~= reasoning_modes());
    assert(parameters@ =~= reasoning_parameters());
    if !chosen(l.reasoning.as_str(), reasoning.as_slice()) || !chosen(
        l.reasoning_parameter.as_str(),
        parameters.as_slice(),
    ) {
        return Some(SettingsFault::Reasoning);
    }
    let levels = ["minimal", "low", "medium", "high", "xhigh", "max"];
    assert(levels@ =~= efforts());
    if !chosen(l.effort.as_str(), levels.as_slice()) {
        return Some(SettingsFault::Effort);
    }
    let proxies = ["none", "system", "custom"];
    assert(proxies@ =~= proxy_modes());
    if !chosen(l.proxy_mode.as_str(), proxies.as_slice()) || (same(l.proxy_mode.as_str(), "custom")
        && l.proxy_url.as_str().unicode_len() == 0) {
        return Some(SettingsFault::Proxy);
    }
    if l.timeout_seconds < 5 || l.timeout_seconds > 900 || l.retries > 6 || l.rpm == 0 || l.tpm
        < 1024 {
        return Some(SettingsFault::Limits);
    }
    None
}

/// Whether settings may be saved, and otherwise the first thing that is wrong.
pub fn validate(s: &Settings, o: &Observed) -> (r: Result<(), SettingsFault>)
    ensures
        match settings_fault(*s, *o) {
            Some(f) => r == Err::<(), SettingsFault>(f),
            None => r is Ok,
        },
{
    if !o.roots_exist {
        return Err(SettingsFault::Roots);
    }
    if s.retention_days == 0 || s.retention_days > 3650 || s.cache_max_mb > 102400 {
        return Err(SettingsFault::Retention);
    }
    if !is_plain_name(s.db.database.as_str()) {
        return Err(SettingsFault::DatabaseName);
    }
    let names = ["doccraft_agent", "doccraft_agent_test"];
    assert(names@ =~= databases());
    if !chosen(s.db.database.as_str(), names.as_slice()) {
        return Err(SettingsFault::Database);
    }
    if s.db.max_connections < 1 || s.db.max_connections > 32 || s.max_jobs < 1 || s.max_jobs > 8
        || s.llm.concurrency < 1 || s.llm.concurrency > 16 {
        return Err(SettingsFault::Concurrency);
    }
    if s.max_file_bytes == 0 || s.max_file_bytes > 100 * 1024 * 1024 || s.max_files == 0
        || s.max_files > 1_000_000 {
        return Err(SettingsFault::SourceSize);
    }
    if let Some(f) = llm_fault(&s.llm) {
        return Err(f);
    }
    if !o.prices_valid {
        return Err(SettingsFault::Prices);
    }
    let a = match parse_address(s.llm.base_url.as_str()) {
        Some(a) => a,
        None => {
            return Err(SettingsFault::Url);
        },
    };
    let kinds = ["http", "https"];
    assert(kinds@ =~= schemes());
    if !chosen(a.scheme.as_str(), kinds.as_slice()) || a.username.as_str().unicode_len() > 0
        || a.has_password || a.has_query || a.has_fragment {
        return Err(SettingsFault::UrlParts);
    }
    Ok(())
}

/// What a fault is reported as.
pub open spec fn fault_text(f: SettingsFault) -> Seq<char> {
    match f {
        SettingsFault::Roots => "Allowed roots must be existing absolute directories"@,
        SettingsFault::Retention => "Invalid retention/cache limits"@,
        SettingsFault::DatabaseName =>
            "Database name must contain only letters, numbers, underscores"@,
        SettingsFault::Database =>
            "Use dedicated doccraft_agent or doccraft_agent_test database"@,
        SettingsFault::Concurrency => "Invalid concurrency limits"@,
        SettingsFault::SourceSize => "Invalid source size limits"@,
        SettingsFault::Context =>
            "Invalid context/output limits (application maximum: 200,000)"@,
        SettingsFault::NoRoom =>
            "No room left for input after reserving output and safety margin"@,
        SettingsFault::TokenMode => "Token mode must be estimate or server with a counting URL"@,
        SettingsFault::OutputParameter => "Unsupported output parameter"@,
        SettingsFault::Reasoning => "Unsupported reasoning mapping"@,
        SettingsFault::Effort => "Invalid reasoning effort"@,
        SettingsFault::Proxy => "Invalid proxy configuration"@,
        SettingsFault::Limits => "Invalid API timeout/rate/retry limits"@,
        SettingsFault::Prices => "Invalid token prices"@,
        SettingsFault::Url => "Invalid API URL"@,
        SettingsFault::UrlParts =>
            "API URL must be HTTP(S), without credentials, query or fragment"@,
    }
}

impl SettingsFault {
    /// What the fault is reported as.
    pub fn message(&self) -> (r: String)
        ensures
            r@ == fault_text(*self),
    {
        match self {
            SettingsFault::Roots => String::from_str(
                "Allowed roots must be existing absolute directories",
            ),
            SettingsFault::Retention => String::from_str("Invalid retention/cache limits"),
            SettingsFault::DatabaseName => String::from_str(
                "Database name must contain only letters, numbers, underscores",
            ),
            SettingsFault::Database => String::from_str(
                "Use dedicated doccraft_agent or doccraft_agent_test database",
            ),
            SettingsFault::Concurrency => String::from_str("Invalid concurrency limits"),
            SettingsFault::SourceSize => String::from_str("Invalid source size limits"),
            SettingsFault::Context => String::from_str(
                "Invalid context/output limits (application maximum: 200,000)",
            ),
            SettingsFault::NoRoom => String::from_str(
                "No room left for input after reserving output and safety margin",
            ),
            SettingsFault::TokenMode => String::from_str(
                "Token mode must be estimate or server with a counting URL",
            ),
            SettingsFault::OutputParameter => String::from_str("Unsupported output parameter"),
            SettingsFault::Reasoning => String::from_str("Unsupported reasoning mapping"),
            SettingsFault::Effort => String::from_str("Invalid reasoning effort"),
            SettingsFault::Proxy => String::from_str("Invalid proxy configuration"),
            SettingsFault::Limits => String::from_str("Invalid API timeout/rate/retry limits"),
            SettingsFault::Prices => String::from_str("Invalid token prices"),
            SettingsFault::Url => String::from_str("Invalid API URL"),
            SettingsFault::UrlParts => String::from_str(
                "API URL must be HTTP(S), without credentials, query or fragment",
            ),
        }
    }
}

} // verus!
