//! Local issuing of LiveKit access tokens: HS256-signed JWTs.
//!
//! The API secret stays in the library; callers hand over a request and get
//! back the token text. The token is
//! `base64url(header) "." base64url(claims) "." base64url(HMAC-SHA256(secret, first two parts))`.

use vstd::prelude::*;
use vstd::utf8::encode_utf8;

use crate::codec::{
    base64url,
    base64url_encode,
    duration_secs,
    debug_quoted,
    debug_string,
    fits_base64,
    hmac_sha256,
    hmac_sha256_tag,
    is_base64url_char,
    json_quote,
    json_string,
    lemma_json_quote_len,
    since_epoch,
    system_now,
};
use crate::text::{
    append_str,
    chars_of,
    concat3,
    copy_range,
    count_char,
    decimal,
    is_blank,
    is_blank_str,
    lemma_count_char_concat,
    lemma_count_char_none,
    lemma_decimal_len_u64,
    lemma_strip_len,
    lemma_utf8_len,
    lemma_rsplit_once_at,
    owned,
    parse_u64,
    parse_u64_chars,
    push_decimal,
    rsplit_once,
    string_from_chars,
    trim,
    trim_chars,
};

verus! {

broadcast use vstd::string::group_string_axioms;

/// What issuing a token for one room needs.
#[derive(Debug, Clone)]
pub struct MintRequest {
    pub api_key: String,
    pub api_secret: String,
    /// The participant's unique ID; a second connection under it replaces the first.
    pub identity: String,
    /// The name shown to others, written to the token's `name` claim.
    pub display_name: Option<String>,
    pub room: String,
    /// Validity in seconds.
    pub ttl_seconds: u64,
}

/// What the form hands over: the validity in human notation such as `"6h"`.
#[derive(Debug, Clone)]
pub struct MintInput {
    pub api_key: String,
    pub api_secret: String,
    pub identity: String,
    pub display_name: Option<String>,
    pub room: String,
    pub ttl: String,
}

/// A signed token with what the caller needs to join; never the secret.
#[derive(Debug, Clone)]
pub struct MintResult {
    pub token: String,
    pub room: String,
    pub identity: String,
    pub expires_at: u64,
    pub ttl_seconds: u64,
}

/// Validity when none is given: six hours.
pub const DEFAULT_TTL_SECONDS: u64 = 21600;

/// The shortest validity a token is issued with.
pub const MIN_TTL_SECONDS: u64 = 30;

// ------------------------------------------------------------------ validity

/// Seconds per unit letter of a validity.
pub open spec fn unit_seconds(u: char) -> Option<u64> {
    if u == 's' || u == 'S' {
        Some(1)
    } else if u == 'm' || u == 'M' {
        Some(60)
    } else if u == 'h' || u == 'H' {
        Some(3600)
    } else if u == 'd' || u == 'D' {
        Some(86400)
    } else {
        None
    }
}

/// `v`, raised to the shortest validity.
pub open spec fn at_least_min(v: nat) -> u64 {
    if v < MIN_TTL_SECONDS {
        MIN_TTL_SECONDS
    } else {
        v as u64
    }
}

pub open spec fn ttl_syntax_message(t: Seq<char>) -> Seq<char> {
    "无法解析有效期 "@ + debug_quoted(t) + ":用 30m / 6h / 7d 这种写法"@
}

pub open spec fn ttl_unit_message(u: char) -> Seq<char> {
    "不支持的时间单位 "@ + debug_quoted(seq![u]) + ":只认 s/m/h/d"@
}

pub open spec fn ttl_too_large_message() -> Seq<char> {
    "有效期过大"@
}

/// What a validity text means: whitespace around it is ignored; empty means six
/// hours; a bare number is seconds; otherwise a number followed by one unit
/// letter `s`, `m`, `h` or `d` (either case). Every accepted value is at least
/// thirty seconds.
pub open spec fn ttl_outcome(raw: Seq<char>) -> Result<u64, Seq<char>> {
    let t = trim(raw);
    if t.len() == 0 {
        Ok(DEFAULT_TTL_SECONDS)
    } else if parse_u64(t) is Some {
        Ok(at_least_min(parse_u64(t)->0 as nat))
    } else {
        match parse_u64(trim(t.drop_last())) {
            None => Err(ttl_syntax_message(t)),
            Some(v) => match unit_seconds(t.last()) {
                None => Err(ttl_unit_message(t.last())),
                Some(m) => if v * m > u64::MAX {
                    Err(ttl_too_large_message())
                } else {
                    Ok(at_least_min((v * m) as nat))
                },
            },
        }
    }
}

/// Parses `"6h"`, `"30m"`, `"7d"`, `"45s"` or a bare number of seconds.
pub fn parse_ttl(raw: &str) -> (r: Result<u64, String>)
    ensures
        match ttl_outcome(raw@) {
            Ok(v) => r == Ok::<u64, String>(v),
            Err(m) => r matches Err(e) && e@ == m,
        },
        r matches Ok(v) ==> v >= MIN_TTL_SECONDS,
{
    let all = chars_of(raw);
    let t = trim_chars(&all);
    if t.len() == 0 {
        return Ok(DEFAULT_TTL_SECONDS);
    }
    if let Some(secs) = parse_u64_chars(&t) {
        return Ok(
            if secs < MIN_TTL_SECONDS {
                MIN_TTL_SECONDS
            } else {
                secs
            },
        );
    }
    let n = t.len();
    let unit = t[n - 1];
    let head = copy_range(&t, 0, n - 1);
    assert(head@ == t@.drop_last());
    let digits = trim_chars(&head);
    let value = match parse_u64_chars(&digits) {
        Some(v) => v,
        None => {
            let shown = debug_string(string_from_chars(&t).as_str());
            return Err(concat3("无法解析有效期 ", shown.as_str(), ":用 30m / 6h / 7d 这种写法"));
        },
    };
    let mult: u64 = if unit == 's' || unit == 'S' {
        1
    } else if unit == 'm' || unit == 'M' {
        60
    } else if unit == 'h' || unit == 'H' {
        3600
    } else if unit == 'd' || unit == 'D' {
        86400
    } else {
        let mut u: Vec<char> = Vec::new();
        u.push(unit);
        assert(u@ == seq![unit]);
        let shown = debug_string(string_from_chars(&u).as_str());
        return Err(concat3("不支持的时间单位 ", shown.as_str(), ":只认 s/m/h/d"));
    };
    if value > u64::MAX / mult {
        assert(value * mult > u64::MAX) by (nonlinear_arith)
            requires
                value > u64::MAX / mult,
                mult > 0,
        ;
        return Err(owned("有效期过大"));
    }
    assert(value * mult <= u64::MAX) by (nonlinear_arith)
        requires
            value <= u64::MAX / mult,
            mult > 0,
    ;
    let secs = value * mult;
    Ok(
        if secs < MIN_TTL_SECONDS {
            MIN_TTL_SECONDS
        } else {
            secs
        },
    )
}

/// The request that `input` describes once its validity reads `ttl_seconds`.
pub open spec fn input_request(input: MintInput, ttl_seconds: u64) -> MintRequest {
    MintRequest {
        api_key: input.api_key,
        api_secret: input.api_secret,
        identity: input.identity,
        display_name: input.display_name,
        room: input.room,
        ttl_seconds,
    }
}

impl MintInput {
    /// The request this input describes, with its validity parsed.
    pub fn into_request(self) -> (r: Result<MintRequest, String>)
        ensures
            match ttl_outcome(self.ttl@) {
                Ok(v) => r matches Ok(q) && q == input_request(self, v),
                Err(m) => r matches Err(e) && e@ == m,
            },
    {
        let ttl_seconds = match parse_ttl(self.ttl.as_str()) {
            Ok(v) => v,
            Err(e) => return Err(e),
        };
        Ok(
            MintRequest {
                api_key: self.api_key,
                api_secret: self.api_secret,
                identity: self.identity,
                display_name: self.display_name,
                room: self.room,
                ttl_seconds,
            },
        )
    }
}

// ------------------------------------------------------------------ claims

/// The JWT header, the bytes `{"alg":"HS256","typ":"JWT"}`.
pub open spec fn header_json() -> Seq<char> {
    "{\"alg\":\"HS256\",\"typ\":\"JWT\"}"@
}

/// The `name` claim: the display name without surrounding whitespace, when that is not empty.
pub open spec fn name_claim(display_name: Option<Seq<char>>) -> Option<Seq<char>> {
    match display_name {
        Some(n) => if trim(n).len() > 0 {
            Some(trim(n))
        } else {
            None
        },
        None => None,
    }
}

pub open spec fn option_view(o: Option<String>) -> Option<Seq<char>> {
    match o {
        Some(s) => Some(s@),
        None => None,
    }
}

/// The `video` grant: join, publish, subscribe and publish data in `room`; no
/// room administration. Keys in sorted order, as a JSON object map writes them.
pub open spec fn video_json(room: Seq<char>) -> Seq<char> {
    "{\"canPublish\":true,\"canPublishData\":true,\"canSubscribe\":true,\"room\":"@ + json_quote(room)
        + ",\"roomAdmin\":false,\"roomJoin\":true}"@
}

/// The claims object in sorted key order: `exp`, `iss` (the API key), `jti` and
/// `sub` (the identity), `kind` `"standard"`, `name` when there is one, `nbf`,
/// and the `video` grant.
pub open spec fn claims_json(
    api_key: Seq<char>,
    identity: Seq<char>,
    room: Seq<char>,
    name: Option<Seq<char>>,
    exp: nat,
    nbf: nat,
) -> Seq<char> {
    "{\"exp\":"@ + decimal(exp) + ",\"iss\":"@ + json_quote(api_key) + ",\"jti\":"@ + json_quote(
        identity,
    ) + ",\"kind\":\"standard\""@ + match name {
        Some(n) => ",\"name\":"@ + json_quote(n),
        None => Seq::empty(),
    } + ",\"nbf\":"@ + decimal(nbf) + ",\"sub\":"@ + json_quote(identity) + ",\"video\":"@
        + video_json(room) + "}"@
}

/// `now - 10`, saturating at zero: ten seconds of clock skew before the token is valid.
pub open spec fn not_before(now: u64) -> nat {
    if now >= 10 {
        (now - 10) as nat
    } else {
        0
    }
}

/// The claims that `request` gets at time `now`: it expires `ttl_seconds` later.
pub open spec fn request_claims(request: MintRequest, now: u64) -> Seq<char> {
    claims_json(
        request.api_key@,
        request.identity@,
        request.room@,
        name_claim(option_view(request.display_name)),
        (now + request.ttl_seconds) as nat,
        not_before(now),
    )
}

/// The signed part of a token with these claims.
pub open spec fn signing_input(claims: Seq<char>) -> Seq<char> {
    base64url(encode_utf8(header_json())) + seq!['.'] + base64url(encode_utf8(claims))
}

/// The HS256 signature of `input` under `secret`, base64url-encoded.
pub open spec fn signature(secret: Seq<u8>, input: Seq<char>) -> Seq<char> {
    base64url(hmac_sha256(secret, encode_utf8(input)))
}

/// The token for these claims, signed with `secret`.
pub open spec fn jwt(claims: Seq<char>, secret: Seq<char>) -> Seq<char> {
    signing_input(claims) + seq!['.'] + signature(encode_utf8(secret), signing_input(claims))
}

/// The token that `request` gets at time `now`.
pub open spec fn token_for(request: MintRequest, now: u64) -> Seq<char> {
    jwt(request_claims(request, now), request.api_secret@)
}

/// Why `request` cannot get a token: the first of API key, API secret,
/// identity and room that is empty or whitespace.
pub open spec fn credentials_problem(request: MintRequest) -> Option<Seq<char>> {
    if is_blank(request.api_key@) {
        Some("API Key 不能为空"@)
    } else if is_blank(request.api_secret@) {
        Some("API Secret 不能为空"@)
    } else if is_blank(request.identity@) {
        Some("参与者 ID 不能为空"@)
    } else if is_blank(request.room@) {
        Some("房间名不能为空"@)
    } else {
        None
    }
}

pub open spec fn token_too_long_message() -> Seq<char> {
    "令牌内容过长"@
}

/// What issuing `request` at `now` gives: the credentials error, or the token
/// (or, for claims whose base64 length overflows `usize`, an error).
pub open spec fn mint_outcome(request: MintRequest, now: u64) -> Result<Seq<char>, Seq<char>> {
    match credentials_problem(request) {
        Some(m) => Err(m),
        None => if fits_base64(encode_utf8(request_claims(request, now)).len()) {
            Ok(token_for(request, now))
        } else {
            Err(token_too_long_message())
        },
    }
}

/// The longest text field, in characters, of a request that is always issued.
pub open spec fn ordinary_field(s: Seq<char>) -> bool {
    s.len() <= 1_000_000
}

proof fn lemma_literal_lens()
    ensures
        "{\"exp\":"@.len() <= 100,
        ",\"iss\":"@.len() <= 100,
        ",\"jti\":"@.len() <= 100,
        ",\"kind\":\"standard\""@.len() <= 100,
        ",\"name\":"@.len() <= 100,
        ",\"nbf\":"@.len() <= 100,
        ",\"sub\":"@.len() <= 100,
        ",\"video\":"@.len() <= 100,
        "}"@.len() <= 100,
        "{\"canPublish\":true,\"canPublishData\":true,\"canSubscribe\":true,\"room\":"@.len()
            <= 100,
        ",\"roomAdmin\":false,\"roomJoin\":true}"@.len() <= 100,
{
    reveal_strlit("{\"exp\":");
    reveal_strlit(",\"iss\":");
    reveal_strlit(",\"jti\":");
    reveal_strlit(",\"kind\":\"standard\"");
    reveal_strlit(",\"name\":");
    reveal_strlit(",\"nbf\":");
    reveal_strlit(",\"sub\":");
    reveal_strlit(",\"video\":");
    reveal_strlit("}");
    reveal_strlit("{\"canPublish\":true,\"canPublishData\":true,\"canSubscribe\":true,\"room\":");
    reveal_strlit(",\"roomAdmin\":false,\"roomJoin\":true}");
}

proof fn lemma_claims_len(
    api_key: Seq<char>,
    identity: Seq<char>,
    room: Seq<char>,
    name: Option<Seq<char>>,
    exp: nat,
    nbf: nat,
)
    requires
        ordinary_field(api_key),
        ordinary_field(identity),
        ordinary_field(room),
        name matches Some(n) ==> ordinary_field(n),
        exp <= u64::MAX,
        nbf <= u64::MAX,
    ensures
        claims_json(api_key, identity, room, name, exp, nbf).len() <= 31_000_000,
{
    lemma_literal_lens();
    lemma_decimal_len_u64(exp);
    lemma_decimal_len_u64(nbf);
    lemma_json_quote_len(api_key);
    lemma_json_quote_len(identity);
    lemma_json_quote_len(room);
    let name_part = match name {
        Some(n) => ",\"name\":"@ + json_quote(n),
        None => Seq::<char>::empty(),
    };
    if let Some(n) = name {
        lemma_json_quote_len(n);
    }
    let a = "{\"exp\":"@ + decimal(exp) + ",\"iss\":"@ + json_quote(api_key) + ",\"jti\":"@
        + json_quote(identity) + ",\"kind\":\"standard\""@;
    let v = video_json(room);
    let b = ",\"nbf\":"@ + decimal(nbf) + ",\"sub\":"@ + json_quote(identity) + ",\"video\":"@ + v
        + "}"@;
    assert(name_part.len() <= 6_000_200);
    assert(v.len() <= 6_000_300);
    assert(a.len() <= 12_000_500);
    assert(b.len() <= 12_000_700);
    assert(claims_json(api_key, identity, room, name, exp, nbf) == a + name_part + b);
    assert((a + name_part).len() == a.len() + name_part.len());
    assert((a + name_part + b).len() == (a + name_part).len() + b.len());
}

/// A request with valid credentials and fields of ordinary length is issued
/// its token whenever the expiry fits: its claims always fit the base64 encoder.
pub proof fn lemma_ordinary_request_is_issued(request: MintRequest, now: u64)
    requires
        credentials_problem(request) is None,
        now + request.ttl_seconds <= u64::MAX,
        ordinary_field(request.api_key@),
        ordinary_field(request.identity@),
        ordinary_field(request.room@),
        request.display_name matches Some(n) ==> ordinary_field(n@),
    ensures
        mint_outcome(request, now) == Ok::<Seq<char>, Seq<char>>(token_for(request, now)),
{
    let name = name_claim(option_view(request.display_name));
    if let Some(n) = request.display_name {
        lemma_strip_len(n@, None);
    }
    lemma_claims_len(
        request.api_key@,
        request.identity@,
        request.room@,
        name,
        (now + request.ttl_seconds) as nat,
        not_before(now),
    );
    let claims = request_claims(request, now);
    lemma_utf8_len(claims);
}

// ------------------------------------------------------------------ exec

/// base64url without padding.
pub fn b64(input: &[u8]) -> (r: String)
    requires
        fits_base64(input@.len()),
    ensures
        r@ == base64url(input@),
        forall|i: int| 0 <= i < r@.len() ==> is_base64url_char(#[trigger] r@[i]),
{
    base64url_encode(input)
}

/// The HS256 signature of `signing_input` under `secret`, base64url without padding.
pub fn sign_hs256(signing_input: &str, secret: &[u8]) -> (r: String)
    ensures
        r@ == signature(secret@, signing_input@),
        forall|i: int| 0 <= i < r@.len() ==> is_base64url_char(#[trigger] r@[i]),
{
    let tag = hmac_sha256_tag(secret, signing_input.as_bytes());
    b64(tag.as_slice())
}

/// The seconds of a clock reading since the epoch, or 0 without one.
pub fn seconds_or_zero(reading: Option<u64>) -> (r: u64)
    ensures
        r == match reading {
            Some(s) => s,
            None => 0,
        },
{
    match reading {
        Some(s) => s,
        None => 0,
    }
}

/// The current Unix time in seconds, or 0 when the clock reads before the epoch.
pub fn unix_now() -> u64 {
    let now = system_now();
    let reading = match since_epoch(&now) {
        Some(d) => Some(duration_secs(&d)),
        None => None,
    };
    seconds_or_zero(reading)
}

fn credentials_error(request: &MintRequest) -> (r: Option<String>)
    ensures
        match credentials_problem(*request) {
            Some(m) => r matches Some(e) && e@ == m,
            None => r is None,
        },
{
    if is_blank_str(request.api_key.as_str()) {
        return Some(owned("API Key 不能为空"));
    }
    if is_blank_str(request.api_secret.as_str()) {
        return Some(owned("API Secret 不能为空"));
    }
    if is_blank_str(request.identity.as_str()) {
        return Some(owned("参与者 ID 不能为空"));
    }
    if is_blank_str(request.room.as_str()) {
        return Some(owned("房间名不能为空"));
    }
    None
}

/// Appends `s` as a JSON string literal.
fn append_json_string(out: &mut Vec<char>, s: &str)
    ensures
        final(out)@ == old(out)@ + json_quote(s@),
{
    let q = json_string(s);
    append_str(out, q.as_str());
}

fn claims_text(request: &MintRequest, now: u64) -> (r: String)
    requires
        now + request.ttl_seconds <= u64::MAX,
    ensures
        r@ == request_claims(*request, now),
{
    let mut c = chars_of("{\"exp\":");
    push_decimal(&mut c, now + request.ttl_seconds);
    append_str(&mut c, ",\"iss\":");
    append_json_string(&mut c, request.api_key.as_str());
    append_str(&mut c, ",\"jti\":");
    append_json_string(&mut c, request.identity.as_str());
    append_str(&mut c, ",\"kind\":\"standard\"");
    let ghost before_name = c@;
    match &request.display_name {
        Some(n) => {
            let name = trim_chars(&chars_of(n.as_str()));
            if name.len() > 0 {
                append_str(&mut c, ",\"name\":");
                append_json_string(&mut c, string_from_chars(&name).as_str());
            }
        },
        None => {},
    }
    assert(c@ == before_name + match name_claim(option_view(request.display_name)) {
        Some(n) => ",\"name\":"@ + json_quote(n),
        None => Seq::<char>::empty(),
    });
    append_str(&mut c, ",\"nbf\":");
    let nbf: u64 = if now >= 10 {
        now - 10
    } else {
        0
    };
    push_decimal(&mut c, nbf);
    append_str(&mut c, ",\"sub\":");
    append_json_string(&mut c, request.identity.as_str());
    append_str(&mut c, ",\"video\":");
    append_str(
        &mut c,
        "{\"canPublish\":true,\"canPublishData\":true,\"canSubscribe\":true,\"room\":",
    );
    append_json_string(&mut c, request.room.as_str());
    append_str(&mut c, ",\"roomAdmin\":false,\"roomJoin\":true}");
    append_str(&mut c, "}");
    string_from_chars(&c)
}

/// Issues a token for `request` as of the Unix time `now`.
pub fn mint_at(request: &MintRequest, now: u64) -> (r: Result<String, String>)
    requires
        credentials_problem(*request) is None ==> now + request.ttl_seconds <= u64::MAX,
    ensures
        match mint_outcome(*request, now) {
            Ok(t) => r matches Ok(s) && s@ == t,
            Err(m) => r matches Err(e) && e@ == m,
        },
        // Every issued token has three segments, and its last segment is the
        // signature of the text before the last dot.
        r matches Ok(s) ==> count_char(s@, '.') == 2 && rsplit_once(s@, '.') == Some(
            (
                signing_input(request_claims(*request, now)),
                signature(
                    encode_utf8(request.api_secret@),
                    signing_input(request_claims(*request, now)),
                ),
            ),
        ),
{
    match credentials_error(request) {
        Some(e) => return Err(e),
        None => {},
    }
    let claims = claims_text(request, now);
    let body_bytes = claims.as_str().as_bytes();
    // Claims too long for their base64 length to fit in `usize` cannot be encoded.
    if body_bytes.len() / 3 > (usize::MAX - 3) / 4 {
        return Err(owned("令牌内容过长"));
    }
    let header = "{\"alg\":\"HS256\",\"typ\":\"JWT\"}";
    proof {
        reveal_strlit("{\"alg\":\"HS256\",\"typ\":\"JWT\"}");
        assert(vstd::utf8::is_ascii_chars(header@));
        vstd::utf8::is_ascii_chars_encode_utf8(header@);
    }
    let header_bytes = header.as_bytes();
    assert(header_bytes@.len() == 27);
    let header_seg = b64(header_bytes);
    let body_seg = b64(body_bytes);
    let mut si = chars_of(header_seg.as_str());
    si.push('.');
    append_str(&mut si, body_seg.as_str());
    let si_text = string_from_chars(&si);
    let sig = sign_hs256(si_text.as_str(), request.api_secret.as_str().as_bytes());
    let ghost si_view = si@;
    si.push('.');
    append_str(&mut si, sig.as_str());
    proof {
        let h = header_seg@;
        let b = body_seg@;
        let g = sig@;
        assert(si_view == h + seq!['.'] + b);
        assert(si@ == si_view + seq!['.'] + g);
        assert forall|i: int| 0 <= i < g.len() implies g[i] != '.' by {
            assert(is_base64url_char(g[i]));
        }
        assert forall|i: int| 0 <= i < h.len() implies h[i] != '.' by {
            assert(is_base64url_char(h[i]));
        }
        assert forall|i: int| 0 <= i < b.len() implies b[i] != '.' by {
            assert(is_base64url_char(b[i]));
        }
        lemma_rsplit_once_at(si_view, g, '.');
        lemma_count_char_none(h, '.');
        lemma_count_char_none(b, '.');
        lemma_count_char_none(g, '.');
        lemma_count_char_concat(h, seq!['.'], '.');
        lemma_count_char_concat(h + seq!['.'], b, '.');
        lemma_count_char_concat(si_view, seq!['.'], '.');
        lemma_count_char_concat(si_view + seq!['.'], g, '.');
        assert(count_char(seq!['.'], '.') == 1) by {
            let one = seq!['.'];
            assert(one.drop_last() =~= Seq::<char>::empty());
            assert(one.last() == '.');
            assert(count_char(Seq::<char>::empty(), '.') == 0);
        }
    }
    Ok(string_from_chars(&si))
}

/// A text result by its views.
pub open spec fn result_view(r: Result<String, String>) -> Result<Seq<char>, Seq<char>> {
    match r {
        Ok(s) => Ok(s@),
        Err(e) => Err(e@),
    }
}

/// Issues a token for `request` as of the current time.
pub fn mint(request: &MintRequest) -> (r: Result<String, String>)
    ensures
        match credentials_problem(*request) {
            Some(m) => r matches Err(e) && e@ == m,
            None => (r matches Err(e) && e@ == ttl_too_large_message() && request.ttl_seconds > 0)
                || exists|now: u64|
                now + request.ttl_seconds <= u64::MAX && #[trigger] mint_outcome(*request, now)
                    == result_view(r),
        },
{
    let now = unix_now();
    match credentials_error(request) {
        Some(e) => return Err(e),
        None => {},
    }
    if request.ttl_seconds > u64::MAX - now {
        return Err(owned("有效期过大"));
    }
    mint_at(request, now)
}

/// Issues a token for a form's input and reports when it expires.
pub fn mint_token(input: MintInput) -> (r: Result<MintResult, String>)
    ensures
        match ttl_outcome(input.ttl@) {
            Err(m) => r matches Err(e) && e@ == m,
            Ok(v) => match credentials_problem(input_request(input, v)) {
                Some(m) => r matches Err(e) && e@ == m,
                None => true,
            },
        },
        r matches Err(e) ==> match ttl_outcome(input.ttl@) {
            Err(m) => e@ == m,
            Ok(v) => match credentials_problem(input_request(input, v)) {
                Some(m) => e@ == m,
                None => (e@ == ttl_too_large_message() && v > 0) || exists|now: u64|
                    now + v <= u64::MAX && #[trigger] mint_outcome(input_request(input, v), now)
                        == Err::<Seq<char>, Seq<char>>(e@),
            },
        },
        r matches Ok(res) ==> ttl_outcome(input.ttl@) == Ok::<u64, Seq<char>>(res.ttl_seconds)
            && res.expires_at >= res.ttl_seconds && res.room == input.room && res.identity == input.identity && exists|now: u64|
            #[trigger] mint_outcome(input_request(input, res.ttl_seconds), now) == Ok::<
                Seq<char>,
                Seq<char>,
            >(res.token@),
{
    let request = match input.into_request() {
        Ok(q) => q,
        Err(e) => return Err(e),
    };
    let ttl_seconds = request.ttl_seconds;
    let token = match mint(&request) {
        Ok(t) => t,
        Err(e) => return Err(e),
    };
    let now = unix_now();
    if ttl_seconds > u64::MAX - now {
        return Err(owned("有效期过大"));
    }
    Ok(
        MintResult {
            token,
            room: request.room,
            identity: request.identity,
            expires_at: now + ttl_seconds,
            ttl_seconds,
        },
    )
}

} // verus!
