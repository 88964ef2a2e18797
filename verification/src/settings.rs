//! The settings form: defaults, credentials prefilled from an env file,
//! server-address normalisation and the checks made before saving.

use vstd::prelude::*;

use crate::codec::{
    duration_nanos,
    hash_u128,
    hasher_finish,
    keyed_hasher,
    random_state,
    since_epoch,
    system_now,
};
use crate::text::{
    chars_equal,
    chars_of,
    copy_range,
    has_prefix,
    hex_padded,
    is_blank,
    is_blank_str,
    owned,
    push_hex_padded,
    split_once,
    split_once_chars,
    starts_with,
    strip,
    strip_end_bound,
    strip_chars,
    strip_end,
    string_from_chars,
    trim,
    trim_chars,
};
use crate::token::{parse_ttl, ttl_outcome};

verus! {

broadcast use vstd::string::group_string_axioms;

/// Everything on the settings form.
#[derive(Debug, Clone)]
pub struct Settings {
    pub url: String,
    pub api_key: String,
    pub api_secret: String,
    pub identity: String,
    pub display_name: String,
    pub room: String,
    pub ttl: String,
    /// The last chosen microphone and speaker; empty means the system default.
    pub mic_device_id: String,
    pub speaker_device_id: String,
    /// Audio processing switches.
    pub echo_cancellation: bool,
    pub noise_suppression: bool,
    pub auto_gain_control: bool,
    /// Join the last room on start (only when the credentials are complete).
    pub auto_join: bool,
}

// ------------------------------------------------------------------ identity

/// The participant ID made from the 32-bit value `v`: `minvoice-` and eight
/// lowercase hexadecimal digits.
pub open spec fn identity_from(v: u32) -> Seq<char> {
    "minvoice-"@ + hex_padded(v as nat, 8)
}

/// Whether `s` has the shape of a generated participant ID.
pub open spec fn is_generated_identity(s: Seq<char>) -> bool {
    exists|v: u32| s == #[trigger] identity_from(v)
}

/// The participant ID drawn from `hash`: its low 32 bits.
pub fn identity_for_hash(hash: u64) -> (r: String)
    ensures
        r@ == identity_from((hash & 0xffff_ffff) as u32),
{
    let v = (hash & 0xffff_ffff) as u32;
    let mut out = chars_of("minvoice-");
    push_hex_padded(&mut out, v as u64, 8);
    string_from_chars(&out)
}

/// A fresh default participant ID: the clock's nanoseconds (0 before the
/// epoch) hashed with a randomly keyed hasher.
pub fn random_identity() -> (r: String)
    ensures
        is_generated_identity(r@),
{
    let now = system_now();
    let nanos: u128 = match since_epoch(&now) {
        Some(d) => duration_nanos(&d),
        None => 0,
    };
    let state = random_state();
    let mut hasher = keyed_hasher(&state);
    hash_u128(&mut hasher, nanos);
    let hash = hasher_finish(&hasher);
    let r = identity_for_hash(hash);
    assert(r@ == identity_from((hash & 0xffff_ffff) as u32));
    r
}

// ------------------------------------------------------------------ defaults

/// The form's values apart from the three credentials fields: all as on a fresh form.
pub open spec fn has_default_preferences(s: Settings) -> bool {
    &&& is_generated_identity(s.identity@)
    &&& s.display_name@ == Seq::<char>::empty()
    &&& s.room@ == "voice-1"@
    &&& s.ttl@ == "6h"@
    &&& s.mic_device_id@ == Seq::<char>::empty()
    &&& s.speaker_device_id@ == Seq::<char>::empty()
    &&& s.echo_cancellation
    &&& s.noise_suppression
    &&& s.auto_gain_control
    &&& !s.auto_join
}

/// A fresh form: no server or credentials, a generated identity, room
/// `voice-1`, validity `6h`, default devices and all audio processing on.
pub open spec fn is_default_settings(s: Settings) -> bool {
    &&& s.url@ == Seq::<char>::empty()
    &&& s.api_key@ == Seq::<char>::empty()
    &&& s.api_secret@ == Seq::<char>::empty()
    &&& has_default_preferences(s)
}

impl Default for Settings {
    fn default() -> (s: Self)
        ensures
            is_default_settings(s),
    {
        Settings {
            url: String::new(),
            api_key: String::new(),
            api_secret: String::new(),
            identity: random_identity(),
            display_name: String::new(),
            room: owned("voice-1"),
            ttl: owned("6h"),
            mic_device_id: String::new(),
            speaker_device_id: String::new(),
            echo_cancellation: true,
            noise_suppression: true,
            auto_gain_control: true,
            auto_join: false,
        }
    }
}

// ------------------------------------------------------------------ env file

/// The lines of `rest` when the current line so far is `cur`, split at `\n`.
pub open spec fn split_lines_from(rest: Seq<char>, cur: Seq<char>) -> Seq<Seq<char>>
    decreases rest.len(),
{
    if rest.len() == 0 {
        seq![cur]
    } else if rest[0] == '\n' {
        seq![cur] + split_lines_from(rest.drop_first(), Seq::empty())
    } else {
        split_lines_from(rest.drop_first(), cur.push(rest[0]))
    }
}

/// The lines of `text`, split at `\n`. (`str::lines` differs only in dropping
/// a trailing `\r` and a last empty line, which are blank after trimming.)
pub open spec fn split_lines(text: Seq<char>) -> Seq<Seq<char>> {
    split_lines_from(text, Seq::empty())
}

/// The server address, API key and API secret read so far.
pub type EnvCredentials = (Seq<char>, Seq<char>, Seq<char>);

/// One line of an env file: blank lines, `#` comments and lines without `=` are
/// skipped; the key and value are trimmed, and double quotes around the value
/// removed. `LIVEKIT_URL` sets the address; `LIVEKIT_WS_URL` sets it only while
/// it is still empty; `LIVEKIT_API_KEY` and `LIVEKIT_API_SECRET` set the
/// credentials; other keys are ignored.
pub open spec fn env_line(st: EnvCredentials, line: Seq<char>) -> EnvCredentials {
    let l = trim(line);
    if l.len() == 0 || l[0] == '#' {
        st
    } else {
        match split_once(l, '=') {
            None => st,
            Some((k, v)) => {
                let key = trim(k);
                let value = strip(trim(v), Some('"'));
                if key == "LIVEKIT_URL"@ {
                    (value, st.1, st.2)
                } else if key == "LIVEKIT_WS_URL"@ {
                    if st.0.len() == 0 {
                        (value, st.1, st.2)
                    } else {
                        st
                    }
                } else if key == "LIVEKIT_API_KEY"@ {
                    (st.0, value, st.2)
                } else if key == "LIVEKIT_API_SECRET"@ {
                    (st.0, st.1, value)
                } else {
                    st
                }
            },
        }
    }
}

/// The credentials an env file gives, line by line from empty.
pub open spec fn env_credentials(text: Seq<char>) -> EnvCredentials {
    split_lines(text).fold_left(
        (Seq::<char>::empty(), Seq::<char>::empty(), Seq::<char>::empty()),
        |st: EnvCredentials, l: Seq<char>| env_line(st, l),
    )
}

/// The state after one line, computed on characters.
fn apply_env_line(url: &mut Vec<char>, key: &mut Vec<char>, secret: &mut Vec<char>, line: &[char])
    ensures
        (final(url)@, final(key)@, final(secret)@) == env_line(
            (old(url)@, old(key)@, old(secret)@),
            line@,
        ),
{
    let l = trim_chars(line);
    if l.len() == 0 || l[0] == '#' {
        return ;
    }
    let (k, v) = match split_once_chars(&l, '=') {
        Some(parts) => parts,
        None => return ,
    };
    let name = trim_chars(&k);
    let value = strip_chars(&trim_chars(&v), Some('"'));
    if chars_equal(&name, &chars_of("LIVEKIT_URL")) {
        *url = value;
    } else if chars_equal(&name, &chars_of("LIVEKIT_WS_URL")) {
        if url.len() == 0 {
            *url = value;
        }
    } else if chars_equal(&name, &chars_of("LIVEKIT_API_KEY")) {
        *key = value;
    } else if chars_equal(&name, &chars_of("LIVEKIT_API_SECRET")) {
        *secret = value;
    }
}

proof fn lemma_fold_push(lines: Seq<Seq<char>>, l: Seq<char>)
    ensures
        lines.push(l).fold_left(
            (Seq::<char>::empty(), Seq::<char>::empty(), Seq::<char>::empty()),
            |st: EnvCredentials, l: Seq<char>| env_line(st, l),
        ) == env_line(
            lines.fold_left(
                (Seq::<char>::empty(), Seq::<char>::empty(), Seq::<char>::empty()),
                |st: EnvCredentials, l: Seq<char>| env_line(st, l),
            ),
            l,
        ),
{
    assert(lines.push(l).drop_last() =~= lines);
}

/// The address a line sets outright: the value of a `LIVEKIT_URL` line.
pub open spec fn url_line_value(line: Seq<char>) -> Option<Seq<char>> {
    let l = trim(line);
    if l.len() == 0 || l[0] == '#' {
        None
    } else {
        match split_once(l, '=') {
            None => None,
            Some((k, v)) => if trim(k) == "LIVEKIT_URL"@ {
                Some(strip(trim(v), Some('"')))
            } else {
                None
            },
        }
    }
}

proof fn lemma_fold_url(lines: Seq<Seq<char>>, i: int, v: Seq<char>)
    requires
        0 <= i < lines.len(),
        url_line_value(lines[i]) == Some(v),
        v.len() > 0,
        forall|j: int| i < j < lines.len() ==> #[trigger] url_line_value(lines[j]) is None,
    ensures
        lines.fold_left(
            (Seq::<char>::empty(), Seq::<char>::empty(), Seq::<char>::empty()),
            |st: EnvCredentials, l: Seq<char>| env_line(st, l),
        ).0 == v,
    decreases lines.len(),
{
    let d = lines.drop_last();
    if i < lines.len() - 1 {
        assert forall|j: int| i < j < d.len() implies #[trigger] url_line_value(d[j]) is None by {
            assert(d[j] == lines[j]);
        }
        assert(d[i] == lines[i]);
        lemma_fold_url(d, i, v);
        assert(url_line_value(lines.last()) is None);
    }
}

/// The address a `LIVEKIT_URL` line gives wins over every `LIVEKIT_WS_URL`
/// line, before or after it: when the last `LIVEKIT_URL` line of a file gives
/// a non-empty address, that is the address the file prefills.
pub proof fn lemma_url_line_wins(text: Seq<char>, i: int, v: Seq<char>)
    requires
        0 <= i < split_lines(text).len(),
        url_line_value(split_lines(text)[i]) == Some(v),
        v.len() > 0,
        forall|j: int|
            i < j < split_lines(text).len() ==> #[trigger] url_line_value(split_lines(text)[j])
                is None,
    ensures
        env_credentials(text).0 == v,
{
    lemma_fold_url(split_lines(text), i, v);
}

/// The credentials of an env file; everything else as on a fresh form.
pub fn parse_env_file(text: &str) -> (s: Settings)
    ensures
        (s.url@, s.api_key@, s.api_secret@) == env_credentials(text@),
        has_default_preferences(s),
{
    let chars = chars_of(text);
    let mut url: Vec<char> = Vec::new();
    let mut key: Vec<char> = Vec::new();
    let mut secret: Vec<char> = Vec::new();
    let mut cur: Vec<char> = Vec::new();
    let ghost mut done: Seq<Seq<char>> = Seq::empty();
    let mut i: usize = 0;
    assert(chars@.subrange(0, chars@.len() as int) =~= chars@);
    assert(done + split_lines(chars@) =~= split_lines(chars@));
    while i < chars.len()
        invariant
            i <= chars@.len(),
            split_lines(chars@) == done + split_lines_from(
                chars@.subrange(i as int, chars@.len() as int),
                cur@,
            ),
            (url@, key@, secret@) == done.fold_left(
                (Seq::<char>::empty(), Seq::<char>::empty(), Seq::<char>::empty()),
                |st: EnvCredentials, l: Seq<char>| env_line(st, l),
            ),
        decreases chars.len() - i,
    {
        let c = chars[i];
        let ghost rest = chars@.subrange(i as int, chars@.len() as int);
        assert(rest.drop_first() =~= chars@.subrange(i + 1, chars@.len() as int));
        if c == '\n' {
            apply_env_line(&mut url, &mut key, &mut secret, &cur);
            proof {
                lemma_fold_push(done, cur@);
                assert(done + (seq![cur@] + split_lines_from(rest.drop_first(), Seq::empty())) =~= done.push(cur@) + split_lines_from(rest.drop_first(), Seq::empty()));
                done = done.push(cur@);
            }
            cur = Vec::new();
        } else {
            cur.push(c);
        }
        i = i + 1;
    }
    apply_env_line(&mut url, &mut key, &mut secret, &cur);
    proof {
        assert(chars@.subrange(i as int, chars@.len() as int) =~= Seq::<char>::empty());
        assert(done + seq![cur@] =~= done.push(cur@));
        lemma_fold_push(done, cur@);
    }
    let mut s = Settings::default();
    s.url = string_from_chars(&url);
    s.api_key = string_from_chars(&key);
    s.api_secret = string_from_chars(&secret);
    s
}

/// The settings an env file prefills: only when it gives both an API key and
/// an API secret.
pub fn prefill_from_env(text: &str) -> (r: Option<Settings>)
    ensures
        match r {
            Some(s) => (s.url@, s.api_key@, s.api_secret@) == env_credentials(text@)
                && env_credentials(text@).1.len() > 0 && env_credentials(text@).2.len() > 0
                && has_default_preferences(s),
            None => env_credentials(text@).1.len() == 0 || env_credentials(text@).2.len() == 0,
        },
{
    let parsed = parse_env_file(text);
    if parsed.api_key.as_str().is_empty() || parsed.api_secret.as_str().is_empty() {
        None
    } else {
        Some(parsed)
    }
}

/// Prefilled settings take over the form, except that the generated identity
/// and the echo-cancellation switch of the loaded form stay.
pub fn merge_prefill(loaded: Settings, prefill: Settings) -> (s: Settings)
    ensures
        s == (Settings {
            identity: loaded.identity,
            echo_cancellation: loaded.echo_cancellation,
            ..prefill
        }),
{
    let mut s = prefill;
    s.identity = loaded.identity;
    s.echo_cancellation = loaded.echo_cancellation;
    s
}

// ------------------------------------------------------------------ server address

/// A server address as typed, completed to a WebSocket URL: whitespace and
/// trailing slashes go; `ws://` and `wss://` stay; `https://` becomes `wss://`,
/// `http://` becomes `ws://`; anything else gets `wss://` in front.
pub open spec fn normalized_url(raw: Seq<char>) -> Seq<char> {
    let u = strip_end(trim(raw), Some('/'));
    if u.len() == 0 {
        Seq::empty()
    } else if starts_with(u, "ws://"@) || starts_with(u, "wss://"@) {
        u
    } else if starts_with(u, "https://"@) {
        "wss://"@ + u.subrange("https://"@.len() as int, u.len() as int)
    } else if starts_with(u, "http://"@) {
        "ws://"@ + u.subrange("http://"@.len() as int, u.len() as int)
    } else {
        "wss://"@ + u
    }
}

proof fn lemma_starts_with_concat(p: Seq<char>, x: Seq<char>)
    ensures
        starts_with(p + x, p),
{
    assert((p + x).subrange(0, p.len() as int) =~= p);
}

proof fn lemma_strip_end_last(s: Seq<char>, t: char)
    ensures
        strip_end(s, Some(t)).len() > 0 ==> strip_end(s, Some(t)).last() != t,
    decreases s.len(),
{
    if s.len() > 0 && s.last() == t {
        lemma_strip_end_last(s.drop_last(), t);
    }
}

/// A normalised address does not end with `/` and names a WebSocket scheme.
proof fn lemma_normalized_shape(raw: Seq<char>)
    ensures
        normalized_url(raw).len() > 0 ==> normalized_url(raw).last() != '/' && (starts_with(
            normalized_url(raw),
            "ws://"@,
        ) || starts_with(normalized_url(raw), "wss://"@)),
{
    let u = strip_end(trim(raw), Some('/'));
    lemma_strip_end_last(trim(raw), '/');
    reveal_strlit("https://");
    reveal_strlit("http://");
    if u.len() > 0 && !(starts_with(u, "ws://"@) || starts_with(u, "wss://"@)) {
        if starts_with(u, "https://"@) {
            let rest = u.subrange("https://"@.len() as int, u.len() as int);
            if u.len() == 8 {
                assert(u =~= u.subrange(0, 8));
                assert(u.last() == '/');
            }
            lemma_starts_with_concat("wss://"@, rest);
            assert(("wss://"@ + rest).last() == u.last());
        } else if starts_with(u, "http://"@) {
            let rest = u.subrange("http://"@.len() as int, u.len() as int);
            if u.len() == 7 {
                assert(u =~= u.subrange(0, 7));
                assert(u.last() == '/');
            }
            lemma_starts_with_concat("ws://"@, rest);
            assert(("ws://"@ + rest).last() == u.last());
        } else {
            lemma_starts_with_concat("wss://"@, u);
            assert(("wss://"@ + u).last() == u.last());
        }
    }
}

/// An address typed without a scheme (a host name or an IP address, with or
/// without a port) gets `wss://` in front of it, whatever its first character:
/// with `u` the address without surrounding whitespace and trailing slashes,
/// the result is exactly `wss://` followed by `u`.
pub proof fn lemma_bare_address_gets_wss(raw: Seq<char>)
    requires
        strip_end(trim(raw), Some('/')).len() > 0,
        !starts_with(strip_end(trim(raw), Some('/')), "ws://"@),
        !starts_with(strip_end(trim(raw), Some('/')), "wss://"@),
        !starts_with(strip_end(trim(raw), Some('/')), "https://"@),
        !starts_with(strip_end(trim(raw), Some('/')), "http://"@),
    ensures
        normalized_url(raw) == "wss://"@ + strip_end(trim(raw), Some('/')),
{
}

/// An `https://` address keeps its host and path behind `wss://`, and an
/// `http://` one behind `ws://`; a `ws://` or `wss://` address stays as it is.
pub proof fn lemma_scheme_addresses(raw: Seq<char>)
    ensures
        ({
            let u = strip_end(trim(raw), Some('/'));
            &&& starts_with(u, "https://"@) ==> normalized_url(raw) == "wss://"@ + u.subrange(
                8,
                u.len() as int,
            )
            &&& starts_with(u, "http://"@) ==> normalized_url(raw) == "ws://"@ + u.subrange(
                7,
                u.len() as int,
            )
            &&& (starts_with(u, "ws://"@) || starts_with(u, "wss://"@)) ==> normalized_url(raw)
                == u
        }),
{
    reveal_strlit("https://");
    reveal_strlit("http://");
    reveal_strlit("ws://");
    reveal_strlit("wss://");
    let u = strip_end(trim(raw), Some('/'));
    if starts_with(u, "https://"@) {
        assert(u.len() >= 8);
        assert(u.subrange(0, 5)[4] == u[4]);
        assert(u.subrange(0, 8)[4] == u[4]);
        assert(!starts_with(u, "http://"@)) by {
            assert(u.subrange(0, 7)[4] == u[4]);
        }
        assert(!starts_with(u, "ws://"@));
        assert(!starts_with(u, "wss://"@)) by {
            assert(u.subrange(0, 6)[0] == u[0]);
            assert(u.subrange(0, 8)[0] == u[0]);
        }
    }
    if starts_with(u, "http://"@) {
        assert(u.len() >= 7);
        assert(!starts_with(u, "ws://"@)) by {
            assert(u.subrange(0, 5)[0] == u[0]);
            assert(u.subrange(0, 7)[0] == u[0]);
        }
        assert(!starts_with(u, "wss://"@)) by {
            assert(u.subrange(0, 6)[0] == u[0]);
            assert(u.subrange(0, 7)[0] == u[0]);
        }
    }
}

/// Normalising an address a second time changes nothing, as long as the
/// first result has no surrounding whitespace (an address such as
/// `"https://host /"` keeps the space before the removed slash, and the second
/// pass trims it).
pub proof fn lemma_normalize_url_idempotent(raw: Seq<char>)
    requires
        trim(normalized_url(raw)) == normalized_url(raw),
    ensures
        normalized_url(normalized_url(raw)) == normalized_url(raw),
{
    let r = normalized_url(raw);
    lemma_normalized_shape(raw);
    if r.len() == 0 {
        assert(strip_end(trim(r), Some('/')).len() == 0);
    } else {
        assert(strip_end(r, Some('/')) == r);
    }
}

/// Completes a typed server address to a WebSocket URL.
pub fn normalize_url(raw: &str) -> (r: String)
    ensures
        r@ == normalized_url(raw@),
        r@.len() == 0 || starts_with(r@, "ws://"@) || starts_with(r@, "wss://"@),
{
    let all = chars_of(raw);
    let t = trim_chars(&all);
    let hi = strip_end_bound(&t, 0, t.len(), Some('/'));
    assert(t@.subrange(0, t@.len() as int) =~= t@);
    let u = copy_range(&t, 0, hi);
    if u.len() == 0 {
        return String::new();
    }
    let ws = chars_of("ws://");
    let wss = chars_of("wss://");
    if has_prefix(&u, &ws) || has_prefix(&u, &wss) {
        return string_from_chars(&u);
    }
    let https = chars_of("https://");
    if has_prefix(&u, &https) {
        let mut out = chars_of("wss://");
        let rest = copy_range(&u, https.len(), u.len());
        crate::text::append_chars(&mut out, &rest);
        proof {
            lemma_starts_with_concat("wss://"@, rest@);
        }
        return string_from_chars(&out);
    }
    let http = chars_of("http://");
    if has_prefix(&u, &http) {
        let mut out = chars_of("ws://");
        let rest = copy_range(&u, http.len(), u.len());
        crate::text::append_chars(&mut out, &rest);
        proof {
            lemma_starts_with_concat("ws://"@, rest@);
        }
        return string_from_chars(&out);
    }
    let mut out = chars_of("wss://");
    crate::text::append_chars(&mut out, &u);
    proof {
        lemma_starts_with_concat("wss://"@, u@);
    }
    string_from_chars(&out)
}

// ------------------------------------------------------------------ saving

pub open spec fn missing_server_message() -> Seq<char> {
    "服务器地址、API Key 和 API Secret 不能为空"@
}

pub open spec fn missing_room_message() -> Seq<char> {
    "参与者 ID 和房间名不能为空"@
}

/// What saving the form checks, in order: the validity parses; the server
/// address (after normalising), API key and API secret are given; the identity
/// and room are given. Accepted settings are saved with the normalised address.
pub open spec fn save_problem(s: Settings) -> Option<Seq<char>> {
    if ttl_outcome(s.ttl@) is Err {
        Some(ttl_outcome(s.ttl@)->Err_0)
    } else if normalized_url(s.url@).len() == 0 || is_blank(s.api_key@) || is_blank(
        s.api_secret@,
    ) {
        Some(missing_server_message())
    } else if is_blank(s.identity@) || is_blank(s.room@) {
        Some(missing_room_message())
    } else {
        None
    }
}

/// The settings to write, or why they cannot be saved.
pub fn prepare_for_save(settings: Settings) -> (r: Result<Settings, String>)
    ensures
        match save_problem(settings) {
            Some(m) => r matches Err(e) && e@ == m,
            None => r matches Ok(s) && s.url@ == normalized_url(settings.url@) && s == (Settings {
                url: s.url,
                ..settings
            }),
        },
        // What is saved always names a WebSocket server, credentials, an identity and a room.
        r matches Ok(s) ==> (starts_with(s.url@, "ws://"@) || starts_with(s.url@, "wss://"@))
            && !is_blank(s.api_key@) && !is_blank(s.api_secret@) && !is_blank(s.identity@)
            && !is_blank(s.room@),
{
    let mut settings = settings;
    let ghost given = settings;
    settings.url = normalize_url(settings.url.as_str());
    match parse_ttl(settings.ttl.as_str()) {
        Ok(_) => {},
        Err(e) => return Err(e),
    }
    if settings.url.as_str().is_empty() || is_blank_str(settings.api_key.as_str()) || is_blank_str(
        settings.api_secret.as_str(),
    ) {
        return Err(owned("服务器地址、API Key 和 API Secret 不能为空"));
    }
    if is_blank_str(settings.identity.as_str()) || is_blank_str(settings.room.as_str()) {
        return Err(owned("参与者 ID 和房间名不能为空"));
    }
    assert(settings == (Settings { url: settings.url, ..given }));
    Ok(settings)
}

} // verus!
