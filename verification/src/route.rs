//! Routing of `conduit://` requests: the path of the request URL, the
//! invoke-key check, and the decision between invoking a command, draining
//! a channel and answering with an error status.

use vstd::prelude::*;
use vstd::string::StringSliceAdditionalSpecFns;
use vstd::utf8::encode_utf8;

use crate::protocol::{
    hex_bytes_value, hex_text, lemma_hex_roundtrip, percent_bytes, percent_decode, utf8_lossy,
    validate_invoke_key_ct,
};

verus! {

// ---------------------------------------------------------------------------
// Searching character sequences
// ---------------------------------------------------------------------------

/// `pat` occurs in `s` starting at `i`.
pub open spec fn occurs_at(s: Seq<char>, pat: Seq<char>, i: int) -> bool {
    0 <= i && i + pat.len() <= s.len() && s.subrange(i, i + pat.len()) == pat
}

/// `i` is the first place where `pat` occurs in `s`.
pub open spec fn first_at(s: Seq<char>, pat: Seq<char>, i: int) -> bool {
    occurs_at(s, pat, i) && forall|j: int| 0 <= j < i ==> !#[trigger] occurs_at(s, pat, j)
}

/// Where `pat` first occurs in `s`, if it occurs at all.
pub open spec fn find(s: Seq<char>, pat: Seq<char>) -> Option<int> {
    if exists|i: int| first_at(s, pat, i) {
        Some(choose|i: int| first_at(s, pat, i))
    } else {
        None
    }
}

/// Two first occurrences are the same occurrence.
proof fn lemma_first_unique(s: Seq<char>, pat: Seq<char>, i: int)
    requires
        first_at(s, pat, i),
    ensures
        find(s, pat) == Some(i),
{
    let c = choose|k: int| first_at(s, pat, k);
    assert(first_at(s, pat, c));
    if c < i {
        assert(!occurs_at(s, pat, c));
    } else if i < c {
        assert(!occurs_at(s, pat, i));
    }
}

/// A found occurrence is the first one.
proof fn lemma_find_some(s: Seq<char>, pat: Seq<char>)
    requires
        find(s, pat) is Some,
    ensures
        first_at(s, pat, find(s, pat)->0),
{
}

/// The characters of a string slice, in order.
fn chars_of(s: &str) -> (v: Vec<char>)
    ensures
        v@ == s@,
{
    broadcast use vstd::string::axiom_spec_iter;

    let mut v: Vec<char> = Vec::new();
    for c in it: s.chars()
        invariant
            v@ == it.seq().take(it.index() as int),
            it.seq() == s@,
    {
        v.push(c);
    }
    v
}

/// Where `pat` first occurs in `s` after the first `from` characters,
/// counted from `from`.
fn find_from(s: &Vec<char>, from: usize, pat: &Vec<char>) -> (r: Option<usize>)
    requires
        from <= s@.len(),
        pat@.len() > 0,
    ensures
        match r {
            Some(i) => find(s@.skip(from as int), pat@) == Some(i as int),
            None => find(s@.skip(from as int), pat@) is None,
        },
{
    let ghost t = s@.skip(from as int);
    let n = s.len();
    let m = pat.len();
    let mut i: usize = from;
    while i < n && n - i >= m
        invariant
            from <= i <= n,
            n == s@.len(),
            m == pat@.len(),
            m > 0,
            t == s@.skip(from as int),
            forall|j: int| 0 <= j < i - from ==> !#[trigger] occurs_at(t, pat@, j),
        decreases n - i,
    {
        let mut k: usize = 0;
        let mut same = true;
        while k < m
            invariant
                0 <= k <= m,
                m == pat@.len(),
                i + m <= n,
                n == s@.len(),
                same == forall|q: int| 0 <= q < k ==> s@[i + q] == pat@[q],
            decreases m - k,
        {
            if s[i + k] != pat[k] {
                same = false;
            }
            k = k + 1;
        }
        if same {
            proof {
                assert(t.subrange(i - from, i - from + m) =~= pat@);
                lemma_first_unique(t, pat@, i - from);
            }
            return Some(i - from);
        }
        proof {
            let q = choose|q: int| 0 <= q < m && s@[i + q] != pat@[q];
            assert(t.subrange(i - from, i - from + m)[q] != pat@[q]);
        }
        i = i + 1;
    }
    proof {
        assert forall|j: int| !first_at(t, pat@, j) by {
            if first_at(t, pat@, j) {
                assert(occurs_at(t, pat@, j));
            }
        }
    }
    None
}

/// The characters `s[from..to]` as a string.
fn string_of(s: &Vec<char>, from: usize, to: usize) -> (r: String)
    requires
        from <= to <= s@.len(),
    ensures
        r@ == s@.subrange(from as int, to as int),
{
    let mut r = String::new();
    let mut i: usize = from;
    while i < to
        invariant
            from <= i <= to <= s@.len(),
            r@ == s@.subrange(from as int, i as int),
        decreases to - i,
    {
        r.push(s[i]);
        i = i + 1;
        assert(r@ =~= s@.subrange(from as int, i as int));
    }
    r
}

/// Whether the string holds the character `c`.
fn has_char(s: &str, c: char) -> (r: bool)
    ensures
        r == s@.contains(c),
{
    let v = chars_of(s);
    let mut i: usize = 0;
    while i < v.len()
        invariant
            v@ == s@,
            i <= v@.len(),
            forall|j: int| 0 <= j < i ==> v@[j] != c,
        decreases v@.len() - i,
    {
        if v[i] == c {
            return true;
        }
        i = i + 1;
    }
    false
}

// ---------------------------------------------------------------------------
// The path of a request URL
// ---------------------------------------------------------------------------

/// The separator between a URL's scheme and its host.
pub open spec fn scheme_sep() -> Seq<char> {
    seq![':', '/', '/']
}

/// The path of a URL: from the first `/` after the first `://` to the end,
/// or `/` when there is no such `/`.
pub open spec fn url_path(url: Seq<char>) -> Seq<char> {
    match find(url, scheme_sep()) {
        None => seq!['/'],
        Some(i) => match find(url.skip(i + 3), seq!['/']) {
            None => seq!['/'],
            Some(j) => url.skip(i + 3 + j),
        },
    }
}

/// `s` without its leading `/` characters.
pub open spec fn trim_slashes(s: Seq<char>) -> Seq<char>
    decreases s.len(),
{
    if s.len() > 0 && s[0] == '/' {
        trim_slashes(s.skip(1))
    } else {
        s
    }
}

/// The action and the still percent-encoded target of a URL: its path,
/// leading slashes removed, split around its first `/`; none when no `/`
/// is left.
pub open spec fn route_parts(url: Seq<char>) -> Option<(Seq<char>, Seq<char>)> {
    let p = trim_slashes(url_path(url));
    match find(p, seq!['/']) {
        None => None,
        Some(k) => Some((p.take(k), p.skip(k + 1))),
    }
}

/// Skipping leading slashes from `from` on.
fn skip_slashes(v: &Vec<char>, from: usize) -> (q: usize)
    requires
        from <= v@.len(),
    ensures
        from <= q <= v@.len(),
        trim_slashes(v@.skip(from as int)) == v@.skip(q as int),
{
    let mut q: usize = from;
    while q < v.len() && v[q] == '/'
        invariant
            from <= q <= v@.len(),
            trim_slashes(v@.skip(from as int)) == trim_slashes(v@.skip(q as int)),
        decreases v@.len() - q,
    {
        assert(v@.skip(q as int).skip(1) =~= v@.skip(q + 1));
        q = q + 1;
    }
    q
}

/// Split a request URL into its action and its still percent-encoded
/// target: `conduit://localhost/invoke/name` gives `invoke` and `name`.
/// `None` when the path, leading slashes removed, holds no `/`.
pub fn parse_route(url: &str) -> (r: Option<(String, String)>)
    ensures
        match route_parts(url@) {
            None => r is None,
            Some((action, target)) => r matches Some((a, t)) && a@ == action && t@ == target,
        },
{
    let v = chars_of(url);
    let n = v.len();
    let sep = vec![':', '/', '/'];
    let slash = vec!['/'];
    assert(sep@ =~= scheme_sep());
    assert(slash@ =~= seq!['/']);
    assert(v@.skip(0) =~= v@);
    let start = match find_from(&v, 0, &sep) {
        None => None,
        Some(i) => {
            proof {
                lemma_find_some(v@.skip(0), sep@);
                assert(occurs_at(v@, sep@, i as int));
            }
            match find_from(&v, i + 3, &slash) {
                None => None,
                Some(j) => {
                    proof {
                        lemma_find_some(v@.skip(i + 3), slash@);
                        assert(occurs_at(v@.skip(i + 3), slash@, j as int));
                        assert(v@.skip(i + 3).skip(j as int) =~= v@.skip(i + 3 + j));
                    }
                    Some(i + 3 + j)
                },
            }
        },
    };
    let p = match start {
        None => {
            proof {
                reveal_with_fuel(trim_slashes, 2);
                assert(seq!['/'].skip(1) =~= Seq::<char>::empty());
                assert(url_path(url@) == seq!['/']);
                assert(trim_slashes(url_path(url@)) =~= Seq::<char>::empty());
                assert(!first_at(Seq::<char>::empty(), seq!['/'], 0));
            }
            return None;
        },
        Some(p) => p,
    };
    assert(url_path(url@) == v@.skip(p as int));
    let q = skip_slashes(&v, p);
    match find_from(&v, q, &slash) {
        None => None,
        Some(k) => {
            proof {
                lemma_find_some(v@.skip(q as int), slash@);
            }
            let action = string_of(&v, q, q + k);
            let target = string_of(&v, q + k + 1, n);
            proof {
                assert(v@.skip(q as int).take(k as int) =~= v@.subrange(q as int, q + k));
                assert(v@.skip(q as int).skip(k + 1) =~= v@.subrange(q + k + 1, v@.len() as int));
            }
            Some((action, target))
        },
    }
}

// ---------------------------------------------------------------------------
// The routing decision
// ---------------------------------------------------------------------------

/// The answer to a request whose path is not `/<action>/<target>` or whose
/// action is unknown.
pub open spec fn not_found_text() -> Seq<char> {
    "not found: expected /invoke/<cmd> or /drain/<channel>"@
}

/// What the protocol handler does with a request.
#[derive(Debug)]
pub enum Route {
    /// Answer at once with this status and error message.
    Reject(u16, String),
    /// Dispatch the command with this (decoded) name.
    Invoke(String),
    /// Drain the channel with this (decoded) name.
    Drain(String),
}

/// A route, its strings taken as character sequences.
pub enum RouteView {
    /// An error status and message.
    Reject(u16, Seq<char>),
    /// A command to dispatch.
    Invoke(Seq<char>),
    /// A channel to drain.
    Drain(Seq<char>),
}

impl View for Route {
    type V = RouteView;

    open spec fn view(&self) -> RouteView {
        match self {
            Route::Reject(status, message) => RouteView::Reject(*status, message@),
            Route::Invoke(name) => RouteView::Invoke(name@),
            Route::Drain(name) => RouteView::Drain(name@),
        }
    }
}

/// The key header of a request: absent, present but not visible ASCII, or
/// its text.
pub open spec fn key_header_view(key: Option<Option<&str>>) -> Option<Option<Seq<char>>> {
    match key {
        None => None,
        Some(None) => Some(None),
        Some(Some(k)) => Some(Some(k@)),
    }
}

/// Whether `key` is the hex text, in either case, of the expected 32 bytes.
pub open spec fn key_accepted(expected: Seq<u8>, key: Seq<char>) -> bool {
    encode_utf8(key).len() == 64 && hex_bytes_value(encode_utf8(key)) == Some(expected)
}

/// The lower-case hex text of a launch key is accepted for that key, and
/// for no other.
pub proof fn lemma_own_key_accepted(key: Seq<u8>, other: Seq<u8>)
    requires
        key.len() == 32,
    ensures
        key_accepted(key, hex_text(key)),
        other != key ==> !key_accepted(other, hex_text(key)),
{
    lemma_hex_roundtrip(key);
}

/// A percent-encoded target after decoding.
pub open spec fn decoded_target(raw: Seq<char>) -> Seq<char> {
    utf8_lossy(percent_bytes(encode_utf8(raw)))
}

/// What an authenticated request comes to, given its action and its decoded
/// target: a target with `/` is refused (400), the actions `invoke` and
/// `drain` dispatch it, any other action is not found (404).
pub open spec fn target_decision(action: Seq<char>, target: Seq<char>) -> RouteView {
    if target.contains('/') {
        RouteView::Reject(400, "invalid command name"@)
    } else if action == "invoke"@ {
        RouteView::Invoke(target)
    } else if action == "drain"@ {
        RouteView::Drain(target)
    } else {
        RouteView::Reject(404, not_found_text())
    }
}

/// What a request comes to, checked in this order: a path of the form
/// `/<action>/<target>` (else 404), a key header that is present (else
/// 401) and readable (else 401) and holds the key (else 403); then the
/// action and the decoded target decide (see [`target_decision`]).
pub open spec fn route_decision(
    url: Seq<char>,
    key: Option<Option<Seq<char>>>,
    expected: Seq<u8>,
) -> RouteView {
    match route_parts(url) {
        None => RouteView::Reject(404, not_found_text()),
        Some((action, raw)) => match key {
            None => RouteView::Reject(401, "missing invoke key"@),
            Some(None) => RouteView::Reject(401, "invalid invoke key header"@),
            Some(Some(k)) => if !key_accepted(expected, k) {
                RouteView::Reject(403, "invalid invoke key"@)
            } else {
                target_decision(action, decoded_target(raw))
            },
        },
    }
}

/// A request is dispatched, to a command or to a channel, only when its key
/// header holds the key, and never with a name that contains `/`.
pub proof fn lemma_dispatch_needs_key(
    url: Seq<char>,
    key: Option<Option<Seq<char>>>,
    expected: Seq<u8>,
)
    ensures
        match route_decision(url, key, expected) {
            RouteView::Invoke(name) | RouteView::Drain(name) => {
                &&& key matches Some(Some(k)) && key_accepted(expected, k)
                &&& !name.contains('/')
            },
            RouteView::Reject(status, _) => status == 400 || status == 401 || status == 403
                || status == 404,
        },
{
}

/// Decide what to do with a `conduit://` request, given its URL, its
/// `X-Conduit-Key` header (`None` when absent, `Some(None)` when it is not
/// visible ASCII) and the expected key bytes.
pub fn route_request(url: &str, key: Option<Option<&str>>, expected: &[u8; 32]) -> (r: Route)
    ensures
        r@ == route_decision(url@, key_header_view(key), expected@),
{
    let (action, raw) = match parse_route(url) {
        None => {
            return Route::Reject(404, "not found: expected /invoke/<cmd> or /drain/<channel>".to_owned());
        },
        Some(parts) => parts,
    };
    let k = match key {
        None => {
            return Route::Reject(401, "missing invoke key".to_owned());
        },
        Some(None) => {
            return Route::Reject(401, "invalid invoke key header".to_owned());
        },
        Some(Some(k)) => k,
    };
    if !validate_invoke_key_ct(expected, k) {
        return Route::Reject(403, "invalid invoke key".to_owned());
    }
    let target = percent_decode(raw.as_str());
    route_target(action.as_str(), target)
}

/// Route an authenticated request by its action and its decoded target
/// (see [`target_decision`]).
pub fn route_target(action: &str, target: String) -> (r: Route)
    ensures
        r@ == target_decision(action@, target@),
{
    if has_char(target.as_str(), '/') {
        return Route::Reject(400, "invalid command name".to_owned());
    }
    if action.to_owned() == "invoke".to_owned() {
        Route::Invoke(target)
    } else if action.to_owned() == "drain".to_owned() {
        Route::Drain(target)
    } else {
        Route::Reject(404, "not found: expected /invoke/<cmd> or /drain/<channel>".to_owned())
    }
}

/// Whether a webview label sent by the client is acceptable: 1 to 128
/// bytes, each an ASCII letter, digit, `_` or `-`.
pub open spec fn valid_webview_label(label: Seq<u8>) -> bool {
    0 < label.len() <= 128 && forall|i: int|
        0 <= i < label.len() ==> crate::protocol::channel_name_byte(#[trigger] label[i])
}

/// Check a webview label sent by the client (see [`valid_webview_label`]).
pub fn check_webview_label(label: &str) -> (ok: bool)
    ensures
        ok == valid_webview_label(label.spec_bytes()),
{
    let b = label.as_bytes();
    if b.len() == 0 || b.len() > 128 {
        return false;
    }
    let mut i: usize = 0;
    while i < b.len()
        invariant
            b@ == label.spec_bytes(),
            i <= b@.len(),
            forall|j: int| 0 <= j < i ==> crate::protocol::channel_name_byte(#[trigger] b@[j]),
        decreases b@.len() - i,
    {
        let c = b[i];
        let ok = (c >= 0x30 && c <= 0x39) || (c >= 0x41 && c <= 0x5a) || (c >= 0x61 && c <= 0x7a)
            || c == 0x5f || c == 0x2d;
        if !ok {
            return false;
        }
        i = i + 1;
    }
    true
}

} // verus!
