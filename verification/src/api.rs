//! The rules of the local interface: who may ask, what an error is reported as,
//! how a run is followed, cancelled and resumed.

use vstd::prelude::*;
use vstd::string::StringExecFns;

use crate::code_graph::{is_one_of, one_of};
use crate::db::{temporarily_unavailable, unavailable, DbError};
use crate::json::{parse_natural, JsonModel};
use crate::text::{
    contains, has, has_prefix, joined, lemma_next_at, next_at, same, slice, starts_with, to_chars, trim,
    trim_bounds,
};
use crate::web::{address_of, parse_address};

verus! {

// ---------------------------------------------------------------------------
// Errors
// ---------------------------------------------------------------------------

/// What an error comes from.
pub enum Cause {
    Database(DbError),
    /// A service that was asked, and whether it took too long.
    Upstream(bool),
    /// The operation took too long.
    Elapsed,
    /// Files or stored values.
    Internal,
    /// A message of the application.
    Text(String),
}

/// An error of the interface.
pub struct ApiError {
    pub cause: Cause,
}

/// The status and the text that an error is reported as. What comes from inside,
/// and addresses, are not shown.
pub open spec fn reported(c: Cause) -> (u16, Seq<char>) {
    match c {
        Cause::Database(DbError::RowNotFound) => (404, "Resource not found"@),
        Cause::Database(e) => if unavailable(e) {
            (503, "Database temporarily unavailable"@)
        } else {
            (500, "Internal server error"@)
        },
        Cause::Upstream(late) => if late {
            (504, "Upstream request timed out"@)
        } else {
            (502, "Upstream service request failed"@)
        },
        Cause::Elapsed => (504, "Operation timed out"@),
        Cause::Internal => (500, "Internal server error"@),
        Cause::Text(t) => if starts_with(t@, "CONFLICT:"@) {
            (409, t@)
        } else if contains(t@, "http://"@) || contains(t@, "https://"@) {
            (400, "Network operation failed; check connection settings"@)
        } else {
            (400, t@)
        },
    }
}

/// The status and the text that an error is reported as.
pub fn public_api_error(error: &ApiError) -> (r: (u16, String))
    ensures
        r.0 == reported(error.cause).0,
        r.1@ == reported(error.cause).1,
{
    match &error.cause {
        Cause::Database(e) => {
            if *e == DbError::RowNotFound {
                (404, String::from_str("Resource not found"))
            } else if temporarily_unavailable(e) {
                (503, String::from_str("Database temporarily unavailable"))
            } else {
                (500, String::from_str("Internal server error"))
            }
        },
        Cause::Upstream(late) => {
            if *late {
                (504, String::from_str("Upstream request timed out"))
            } else {
                (502, String::from_str("Upstream service request failed"))
            }
        },
        Cause::Elapsed => (504, String::from_str("Operation timed out")),
        Cause::Internal => (500, String::from_str("Internal server error")),
        Cause::Text(t) => {
            if has_prefix(t.as_str(), "CONFLICT:") {
                (409, t.clone())
            } else if has(t.as_str(), "http://") || has(t.as_str(), "https://") {
                (400, String::from_str("Network operation failed; check connection settings"))
            } else {
                (400, t.clone())
            }
        },
    }
}

/// An address that an error speaks of is never shown, but for a conflict.
pub proof fn addresses_are_not_shown(text: String)
    requires
        contains(text@, "http://"@) || contains(text@, "https://"@),
        !starts_with(text@, "CONFLICT:"@),
    ensures
        reported(Cause::Text(text)).1
            == "Network operation failed; check connection settings"@,
{
}

// ---------------------------------------------------------------------------
// Access
// ---------------------------------------------------------------------------

/// The hosts of this machine.
pub open spec fn local_hosts() -> Seq<&'static str> {
    seq!["127.0.0.1", "localhost"]
}

/// A page of this machine, at one of two ports, may ask.
pub open spec fn origin_allowed(origin: Seq<char>, backend: u16, frontend: u16) -> bool {
    match address_of(origin) {
        Some(a) => {
            &&& a.scheme == "http"@
            &&& a.host is Some && one_of(a.host->0, local_hosts())
            &&& a.port == Some(backend) || a.port == Some(frontend)
            &&& a.username.len() == 0
            &&& !a.has_password
            &&& a.path == "/"@
            &&& !a.has_query
            &&& !a.has_fragment
        },
        None => false,
    }
}

/// Whether a page may ask.
pub fn allowed_origin(origin: &str, backend_port: u16, frontend_port: u16) -> (r: bool)
    ensures
        r == origin_allowed(origin@, backend_port, frontend_port),
{
    let a = match parse_address(origin) {
        Some(a) => a,
        None => {
            return false;
        },
    };
    let hosts = ["127.0.0.1", "localhost"];
    assert(hosts@ =~= local_hosts());
    let local = match &a.host {
        Some(h) => is_one_of(h.as_str(), hosts.as_slice()),
        None => false,
    };
    let port = match a.port {
        Some(p) => p == backend_port || p == frontend_port,
        None => false,
    };
    local && port && same(a.scheme.as_str(), "http") && a.username.as_str().unicode_len() == 0
        && !a.has_password && same(a.path.as_str(), "/") && !a.has_query && !a.has_fragment
}

/// A text without a beginning, however often it begins so.
pub open spec fn without_prefix(s: Seq<char>, prefix: Seq<char>) -> Seq<char>
    decreases s.len(),
{
    if prefix.len() > 0 && starts_with(s, prefix) && prefix.len() <= s.len() {
        without_prefix(s.skip(prefix.len() as int), prefix)
    } else {
        s
    }
}

/// A host header names this machine.
pub open spec fn host_allowed(value: Seq<char>) -> bool {
    let bare = without_prefix(without_prefix(value, "http://"@), "https://"@);
    one_of(bare.take(next_at(bare, ':', 0)), local_hosts()) && !contains(bare, "@"@) && !contains(
        bare,
        "/"@,
    )
}

/// A text without a beginning, however often it begins so.
fn strip_prefixes(s: &str, prefix: &str) -> (r: String)
    requires
        prefix@.len() > 0,
    ensures
        r@ == without_prefix(s@, prefix@),
{
    let size: usize = to_chars(prefix).len();
    let mut r = String::from_str(s);
    while has_prefix(r.as_str(), prefix)
        invariant
            size == prefix@.len(),
            prefix@.len() > 0,
            without_prefix(r@, prefix@) == without_prefix(s@, prefix@),
        decreases r@.len(),
    {
        let chars = to_chars(r.as_str());
        let ghost was = r@;
        r = slice(chars.as_slice(), size, chars.len());
        assert(r@ =~= was.skip(size as int));
    }
    r
}

/// Whether a host header names this machine.
pub fn valid_host(value: &str) -> (r: bool)
    ensures
        r == host_allowed(value@),
{
    proof {
        reveal_strlit("http://");
        reveal_strlit("https://");
    }
    let once = strip_prefixes(value, "http://");
    let bare = strip_prefixes(once.as_str(), "https://");
    let chars = to_chars(bare.as_str());
    let n: usize = chars.len();
    let mut end: usize = 0;
    while end < n && chars[end] != ':'
        invariant
            end <= n == chars@.len(),
            chars@ == bare@,
            next_at(bare@, ':', 0) == next_at(bare@, ':', end as int),
        decreases n - end,
    {
        end += 1;
    }
    let host = slice(chars.as_slice(), 0, end);
    assert(host@ =~= bare@.take(end as int));
    let hosts = ["127.0.0.1", "localhost"];
    assert(hosts@ =~= local_hosts());
    let at = has(bare.as_str(), "@");
    let slash = has(bare.as_str(), "/");
    is_one_of(host.as_str(), hosts.as_slice()) && !at && !slash
}

/// The text of a header, where there is one.
pub open spec fn header_text(header: Option<&str>) -> Option<Seq<char>> {
    match header {
        Some(h) => Some(h@),
        None => None,
    }
}

/// A request comes from this machine: its host is local, a page that asks is
/// allowed, and no other site asks.
pub open spec fn local_request(
    host: Option<Seq<char>>,
    origin: Option<Seq<char>>,
    site: Option<Seq<char>>,
    backend: u16,
    frontend: u16,
) -> bool {
    &&& host is Some && host_allowed(host->0)
    &&& origin is Some ==> origin_allowed(origin->0, backend, frontend)
    &&& site != Some("cross-site"@)
}

/// Whether a request comes from this machine.
pub fn local_only(
    host: Option<&str>,
    origin: Option<&str>,
    site: Option<&str>,
    backend_port: u16,
    frontend_port: u16,
) -> (r: bool)
    ensures
        r == local_request(
            header_text(host),
            header_text(origin),
            header_text(site),
            backend_port,
            frontend_port,
        ),
{
    let local = match host {
        Some(h) => valid_host(h),
        None => false,
    };
    if !local {
        return false;
    }
    if let Some(o) = origin {
        if !allowed_origin(o, backend_port, frontend_port) {
            return false;
        }
    }
    match site {
        Some(s) => !same(s, "cross-site"),
        None => true,
    }
}

/// The cookie of a session.
pub open spec fn cookie_of(session: Seq<char>) -> Seq<char> {
    "doccraft_session="@ + session
}

/// One of the cookies from position `from` on is that of a session.
pub open spec fn holds_session(cookies: Seq<char>, session: Seq<char>, from: int) -> bool
    decreases cookies.len() - from,
{
    let end = next_at(cookies, ';', from);
    if !(0 <= from <= end <= cookies.len()) {
        false
    } else if trim(cookies.subrange(from, end)) == cookie_of(session) {
        true
    } else if end < cookies.len() {
        holds_session(cookies, session, end + 1)
    } else {
        false
    }
}

/// Whether one of the cookies is that of a session.
pub fn authenticate(cookies: &str, session: &str) -> (r: bool)
    ensures
        r == holds_session(cookies@, session@, 0),
{
    let chars = to_chars(cookies);
    let n: usize = chars.len();
    let ghost s = cookies@;
    let want = joined("doccraft_session=", session);
    let mut from: usize = 0;
    loop
        invariant
            from <= n == s.len(),
            chars@ == s,
            s == cookies@,
            want@ == cookie_of(session@),
            holds_session(s, session@, from as int) == holds_session(s, session@, 0),
        decreases n - from,
    {
        proof {
            lemma_next_at(s, ';', from as int);
        }
        let mut end: usize = from;
        while end < n && chars[end] != ';'
            invariant
                from <= end <= n == s.len(),
                chars@ == s,
                next_at(s, ';', from as int) == next_at(s, ';', end as int),
            decreases n - end,
        {
            end += 1;
        }
        let b = trim_bounds(chars.as_slice(), from, end);
        let part = slice(chars.as_slice(), b.0, b.1);
        if same(part.as_str(), want.as_str()) {
            return true;
        }
        if end == n {
            return false;
        }
        from = end + 1;
    }
}

/// The header that starts a session.
pub fn session_cookie(session: &str) -> (r: String)
    ensures
        r@ == cookie_of(session@) + "; HttpOnly; SameSite=Strict; Path=/"@,
{
    let mut s = joined("doccraft_session=", session);
    s.push_str("; HttpOnly; SameSite=Strict; Path=/");
    s
}

/// A request with the cookie of its session, alone, is let in.
pub proof fn sessions_let_in(session: Seq<char>)
    requires
        !cookie_of(session).contains(';'),
        trim(cookie_of(session)) == cookie_of(session),
    ensures
        holds_session(cookie_of(session), session, 0),
{
    let c = cookie_of(session);
    lemma_next_at(c, ';', 0);
    let end = next_at(c, ';', 0);
    if end < c.len() {
        assert(c[end] == ';');
        assert(c.contains(';'));
    }
    assert(c.subrange(0, end) =~= c);
}

// ---------------------------------------------------------------------------
// Requests
// ---------------------------------------------------------------------------

/// A run.
pub struct RunId {
    pub id: String,
}

/// Tasks that are started together.
pub struct Batch {
    pub ids: Vec<String>,
}

/// Where a list goes on.
pub struct Cursor {
    pub after: Option<u64>,
}

/// The most tasks of a batch.
pub const BATCH_MAX: usize = 64;

impl Batch {
    /// Whether the batch is small enough.
    pub fn accepted(&self) -> (r: bool)
        ensures
            r == (self.ids@.len() <= BATCH_MAX),
    {
        self.ids.len() <= BATCH_MAX
    }
}

/// How many slots to add or to take away.
#[derive(Clone, Copy, Debug, PartialEq, Eq, Structural)]
pub enum SlotChange {
    Add(usize),
    Forget(usize),
}

/// How the number of slots changes from one setting to another.
pub fn adjust_slots(before: usize, after: usize) -> (r: SlotChange)
    ensures
        match r {
            SlotChange::Add(n) => after > before && before + n == after,
            SlotChange::Forget(n) => after <= before && before - n == after,
        },
{
    if after > before {
        SlotChange::Add(after - before)
    } else {
        SlotChange::Forget(before - after)
    }
}

/// What becomes of a request to cancel.
#[derive(Clone, Copy, Debug, PartialEq, Eq, Structural)]
pub enum Cancellation {
    /// The run is over, or another one has its place.
    Refused,
    /// It was cancelled before.
    Repeated,
    /// The intent is written down, and then the run is told.
    Signal,
}

/// What becomes of a request to cancel a run: `registered` is whether the run
/// that was found is still the one registered, once its publication boundary was
/// waited for.
pub fn request_cancel(registered: bool, published: bool, cancelled: bool) -> (r: Cancellation)
    ensures
        r == (if !registered || published {
            Cancellation::Refused
        } else if cancelled {
            Cancellation::Repeated
        } else {
            Cancellation::Signal
        }),
{
    if !registered || published {
        Cancellation::Refused
    } else if cancelled {
        Cancellation::Repeated
    } else {
        Cancellation::Signal
    }
}

/// The status that is shown of a run: one that was cancelled and still works is
/// shown as cancelling.
pub open spec fn status_shown(status: Seq<char>, cancelled: bool) -> Seq<char> {
    if cancelled && (status == "queued"@ || status == "running"@) {
        "cancelling"@
    } else {
        status
    }
}

/// The status that is shown of a run.
pub fn shown_status(status: &str, cancelled: bool) -> (r: String)
    ensures
        r@ == status_shown(status@, cancelled),
{
    if cancelled && (same(status, "queued") || same(status, "running")) {
        String::from_str("cancelling")
    } else {
        String::from_str(status)
    }
}

// ---------------------------------------------------------------------------
// Following a run
// ---------------------------------------------------------------------------

/// The number that a header holds.
pub open spec fn header_number(header: Option<Seq<char>>) -> Option<u64> {
    match header {
        Some(h) => JsonModel::Num(
            if h.len() > 0 && h[0] == '+' {
                h.skip(1)
            } else {
                h
            },
        ).natural(),
        None => None,
    }
}

/// The event that a stream goes on behind: the last one that was received, or
/// the one that was asked for.
pub fn event_cursor(after: Option<u64>, last_received: Option<&str>) -> (r: u64)
    ensures
        r == (match header_number(header_text(last_received)) {
            Some(n) => n,
            None => match after {
                Some(n) => n,
                None => 0,
            },
        }),
{
    let received = match last_received {
        Some(h) => {
            let chars = to_chars(h);
            let from: usize = if chars.len() > 0 && chars[0] == '+' {
                1
            } else {
                0
            };
            let digits = slice(chars.as_slice(), from, chars.len());
            assert(from == 1 ==> digits@ =~= h@.skip(1));
            assert(from == 0 ==> digits@ =~= h@);
            parse_natural(digits.as_str())
        },
        None => None,
    };
    match received {
        Some(n) => n,
        None => match after {
            Some(n) => n,
            None => 0,
        },
    }
}

/// The statuses of runs that go on.
pub open spec fn active_statuses() -> Seq<&'static str> {
    seq!["queued", "running", "cancelling", "interrupted"]
}

/// Whether a run is over, so that a stream of its events ends.
pub fn stream_terminal(status: &str) -> (r: bool)
    ensures
        r == !one_of(status@, active_statuses()),
{
    let active = ["queued", "running", "cancelling", "interrupted"];
    assert(active@ =~= active_statuses());
    !is_one_of(status, active.as_slice())
}

/// The most events of a page.
pub const EVENT_PAGE: usize = 200;

/// How often nothing may come before a run's status is looked at again.
pub const IDLE_POLLS: u8 = 20;

/// A stream of events.
#[derive(Clone, Copy, Debug, PartialEq, Eq, Structural)]
pub struct EventStream {
    /// How many pages in a row were not full.
    pub idle: u8,
}

/// What a stream does after a page.
#[derive(Clone, Copy, Debug, PartialEq, Eq, Structural)]
pub struct AfterPage {
    /// The run's status is looked at.
    pub look: bool,
    /// The stream waits before the next page.
    pub wait: bool,
}

/// What a stream does once a run's status is known.
#[derive(Clone, Copy, Debug, PartialEq, Eq, Structural)]
pub enum AfterStatus {
    /// It goes on.
    GoOn,
    /// The run is over: events that were committed since are drained first.
    Drain,
    /// There is no such run.
    NotFound,
}

/// One more page that was not full, as far as a number holds.
pub open spec fn one_more_idle(n: u8) -> u8 {
    if n == u8::MAX {
        n
    } else {
        (n + 1) as u8
    }
}

impl EventStream {
    /// How many pages in a row were not full, behind a page of some events, or
    /// behind one that could not be read.
    pub open spec fn idle_after(self, page: Option<usize>) -> u8 {
        match page {
            Some(n) => if n == EVENT_PAGE {
                0
            } else {
                one_more_idle(self.idle)
            },
            None => self.idle,
        }
    }

    /// Takes in a page of some events, or one that could not be read.
    pub fn polled(&mut self, page: Option<usize>) -> (r: AfterPage)
        ensures
            ({
                let idle = old(self).idle_after(page);
                &&& r.look == (idle == 1 || idle >= IDLE_POLLS)
                &&& r.wait == (page != Some(EVENT_PAGE))
                &&& final(self).idle == (if r.look {
                    0
                } else {
                    idle
                })
            }),
    {
        let mut full = false;
        if let Some(n) = page {
            if n == EVENT_PAGE {
                full = true;
                self.idle = 0;
            } else {
                self.idle = self.idle.saturating_add(1);
            }
        }
        let look = self.idle == 1 || self.idle >= IDLE_POLLS;
        if look {
            self.idle = 0;
        }
        AfterPage { look, wait: !full }
    }
}

/// What a stream does once a run's status is known.
pub fn after_status(status: Option<&str>) -> (r: AfterStatus)
    ensures
        r == (match header_text(status) {
            Some(s) => if one_of(s, active_statuses()) {
                AfterStatus::GoOn
            } else {
                AfterStatus::Drain
            },
            None => AfterStatus::NotFound,
        }),
{
    match status {
        Some(s) => if stream_terminal(s) {
            AfterStatus::Drain
        } else {
            AfterStatus::GoOn
        },
        None => AfterStatus::NotFound,
    }
}

} // verus!
