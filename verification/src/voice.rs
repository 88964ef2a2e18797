//! The decisions of a voice session: what the room state shows, what a mute,
//! deafen or device request does, how room events are reported, and how a
//! join request becomes a signed connection.
//!
//! The session itself (the LiveKit room, the audio device module and the
//! event loop) is driven by the application, which asks these functions what
//! to do and carries it out.

use vstd::prelude::*;

use crate::settings::{normalize_url, normalized_url};
use crate::text::{
    chars_equal,
    chars_of,
    concat2,
    concat3,
    owned,
    string_from_chars,
    trim,
    trim_chars,
};
use crate::token::{
    claims_json,
    credentials_problem,
    not_before,
    request_claims,
    mint,
    mint_outcome,
    ttl_outcome,
    ttl_too_large_message,
    MintInput,
    MintRequest,
};

verus! {

broadcast use vstd::string::group_string_axioms;

/// What joining a room needs once the secret has become a token.
#[derive(Debug, Clone)]
pub struct JoinInput {
    pub url: String,
    pub token: String,
    pub identity: String,
    pub display_name: String,
    pub echo_cancellation: bool,
    pub noise_suppression: bool,
    pub auto_gain_control: bool,
    /// Empty means the system default device.
    pub mic_device_id: String,
    pub speaker_device_id: String,
}

/// What the form sends to join a room; the secret is read from the saved settings.
#[derive(Debug, Clone)]
pub struct ConnectInput {
    pub url: String,
    pub api_key: String,
    pub room: String,
    pub identity: String,
    pub display_name: String,
    pub ttl: String,
    pub echo_cancellation: bool,
    pub noise_suppression: bool,
    pub auto_gain_control: bool,
    pub mic_device_id: String,
    pub speaker_device_id: String,
}

/// One participant as the window shows it.
#[derive(Debug, Clone)]
pub struct ParticipantView {
    pub identity: String,
    pub name: String,
    pub is_local: bool,
    pub speaking: bool,
    /// Whether the participant has no live microphone.
    pub mic_muted: bool,
}

/// The whole session state, sent in full on every change.
#[derive(Debug, Clone)]
pub struct Snapshot {
    pub connection: String,
    pub room: String,
    pub identity: String,
    pub participants: Vec<ParticipantView>,
    pub mic_enabled: bool,
    pub deafened: bool,
}

/// An audio device as the device menu shows it.
#[derive(Debug, Clone)]
pub struct DeviceView {
    pub id: String,
    pub name: String,
    pub is_default: bool,
}

/// The microphones and speakers found.
#[derive(Debug, Clone)]
pub struct DevicesResult {
    pub mics: Vec<DeviceView>,
    pub speakers: Vec<DeviceView>,
}

/// The states a room connection reports.
#[derive(Debug, Clone, Copy, PartialEq, Eq)]
pub enum LinkState {
    Connected,
    Reconnecting,
    Disconnected,
}

/// One published track of a remote participant, as far as the state needs it.
#[derive(Debug, Clone, Copy)]
pub struct TrackInfo {
    pub is_audio: bool,
    pub muted: bool,
}

/// A remote participant as the room reports it.
#[derive(Debug, Clone)]
pub struct PeerInfo {
    pub identity: String,
    pub name: String,
    pub speaking: bool,
    pub tracks: Vec<TrackInfo>,
}

// ------------------------------------------------------------------ labels

/// The name shown for a participant: the given name without surrounding
/// whitespace, or the identity when that is empty.
pub open spec fn shown_name(name: Seq<char>, identity: Seq<char>) -> Seq<char> {
    if trim(name).len() == 0 {
        identity
    } else {
        trim(name)
    }
}

/// The name shown for a participant.
pub fn display_name(name: &str, identity: &str) -> (r: String)
    ensures
        r@ == shown_name(name@, identity@),
{
    let t = trim_chars(&chars_of(name));
    if t.len() == 0 {
        owned(identity)
    } else {
        string_from_chars(&t)
    }
}

/// The name shown is the whole given name without its surrounding whitespace
/// whenever that is not empty, inner spaces included; only a blank name falls
/// back to the identity.
pub proof fn lemma_shown_name_is_whole_trimmed_name(name: Seq<char>, identity: Seq<char>)
    ensures
        trim(name).len() > 0 ==> shown_name(name, identity) == trim(name),
        trim(name).len() == 0 ==> shown_name(name, identity) == identity,
{
}

pub open spec fn link_label(state: LinkState) -> Seq<char> {
    match state {
        LinkState::Connected => "connected"@,
        LinkState::Reconnecting => "reconnecting"@,
        LinkState::Disconnected => "disconnected"@,
    }
}

/// The connection state as the window names it.
pub fn connection_label(state: LinkState) -> (r: String)
    ensures
        r@ == link_label(state),
{
    match state {
        LinkState::Connected => owned("connected"),
        LinkState::Reconnecting => owned("reconnecting"),
        LinkState::Disconnected => owned("disconnected"),
    }
}

/// Whether a participant has at least one unmuted audio track.
pub open spec fn live_mic(tracks: Seq<TrackInfo>) -> bool {
    exists|i: int| 0 <= i < tracks.len() && tracks[i].is_audio && !tracks[i].muted
}

/// Whether a participant has at least one unmuted audio track.
pub fn has_live_mic(tracks: &Vec<TrackInfo>) -> (r: bool)
    ensures
        r == live_mic(tracks@),
{
    let mut i: usize = 0;
    while i < tracks.len()
        invariant
            i <= tracks@.len(),
            forall|j: int| 0 <= j < i ==> !(tracks@[j].is_audio && !tracks@[j].muted),
        decreases tracks.len() - i,
    {
        if tracks[i].is_audio && !tracks[i].muted {
            return true;
        }
        i = i + 1;
    }
    false
}

// ------------------------------------------------------------------ ordering

/// Strict lexicographic order of texts by code point (the order of `String`'s
/// `Ord`, since UTF-8 keeps code-point order byte by byte).
pub open spec fn text_less(a: Seq<char>, b: Seq<char>) -> bool
    decreases a.len(),
{
    if a.len() == 0 {
        b.len() > 0
    } else if b.len() == 0 {
        false
    } else if a[0] < b[0] {
        true
    } else if a[0] > b[0] {
        false
    } else {
        text_less(a.drop_first(), b.drop_first())
    }
}

proof fn lemma_text_less_irreflexive(a: Seq<char>)
    ensures
        !text_less(a, a),
    decreases a.len(),
{
    if a.len() > 0 {
        lemma_text_less_irreflexive(a.drop_first());
    }
}

proof fn lemma_text_less_transitive(a: Seq<char>, b: Seq<char>, c: Seq<char>)
    requires
        text_less(a, b),
        text_less(b, c),
    ensures
        text_less(a, c),
    decreases a.len(),
{
    if a.len() > 0 && b.len() > 0 && c.len() > 0 {
        if a[0] == b[0] && b[0] == c[0] {
            lemma_text_less_transitive(a.drop_first(), b.drop_first(), c.drop_first());
        }
    }
}

/// Whether `a` sorts before `b`.
fn text_less_exec(a: &[char], b: &[char]) -> (r: bool)
    ensures
        r == text_less(a@, b@),
{
    let mut k: usize = 0;
    assert(a@.subrange(0, a@.len() as int) =~= a@);
    assert(b@.subrange(0, b@.len() as int) =~= b@);
    while k < a.len() && k < b.len() && a[k] == b[k]
        invariant
            k <= a@.len(),
            k <= b@.len(),
            text_less(a@, b@) == text_less(
                a@.subrange(k as int, a@.len() as int),
                b@.subrange(k as int, b@.len() as int),
            ),
        decreases a.len() - k,
    {
        assert(a@.subrange(k as int, a@.len() as int).drop_first() =~= a@.subrange(
            k + 1,
            a@.len() as int,
        ));
        assert(b@.subrange(k as int, b@.len() as int).drop_first() =~= b@.subrange(
            k + 1,
            b@.len() as int,
        ));
        k = k + 1;
    }
    let ghost sa = a@.subrange(k as int, a@.len() as int);
    let ghost sb = b@.subrange(k as int, b@.len() as int);
    if k == a.len() {
        assert(sa.len() == 0);
        k < b.len()
    } else if k == b.len() {
        false
    } else {
        assert(sa[0] == a@[k as int] && sb[0] == b@[k as int]);
        a[k] < b[k]
    }
}

/// No participant sorts before one that precedes it.
pub open spec fn sorted_by_name(v: Seq<ParticipantView>) -> bool {
    forall|i: int, j: int| 0 <= i < j < v.len() ==> !text_less(v[j].name@, v[i].name@)
}

pub open spec fn name_is(name: Seq<char>) -> spec_fn(ParticipantView) -> bool {
    |p: ParticipantView| p.name@ == name
}

/// The participants named `name`, in their order.
pub open spec fn named(v: Seq<ParticipantView>, name: Seq<char>) -> Seq<ParticipantView> {
    v.filter(name_is(name))
}

proof fn lemma_text_less_total(a: Seq<char>, b: Seq<char>)
    ensures
        text_less(a, b) || text_less(b, a) || a == b,
    decreases a.len(),
{
    if a.len() > 0 && b.len() > 0 && a[0] == b[0] {
        lemma_text_less_total(a.drop_first(), b.drop_first());
        if a.drop_first() == b.drop_first() {
            assert(a =~= seq![a[0]] + a.drop_first());
            assert(b =~= seq![b[0]] + b.drop_first());
        }
    } else if a.len() == 0 && b.len() == 0 {
        assert(a =~= b);
    }
}

/// Texts are ordered at their first difference: when `a` and `b` agree before
/// index `i` and differ at `i`, `a` sorts before `b` exactly when its character
/// there has the smaller code point, whatever the lengths of the two texts.
pub proof fn lemma_text_less_at_first_difference(a: Seq<char>, b: Seq<char>, i: int)
    requires
        0 <= i < a.len(),
        i < b.len(),
        a.subrange(0, i) == b.subrange(0, i),
        a[i] != b[i],
    ensures
        text_less(a, b) <==> a[i] < b[i],
    decreases i,
{
    if i > 0 {
        assert(a.subrange(0, i)[0] == b.subrange(0, i)[0]);
        assert(a.subrange(0, i)[0] == a[0] && b.subrange(0, i)[0] == b[0]);
        assert(a.drop_first().subrange(0, i - 1) =~= a.subrange(0, i).drop_first());
        assert(b.drop_first().subrange(0, i - 1) =~= b.subrange(0, i).drop_first());
        lemma_text_less_at_first_difference(a.drop_first(), b.drop_first(), i - 1);
        assert(a.drop_first()[i - 1] == a[i] && b.drop_first()[i - 1] == b[i]);
        assert(a[0] == b[0]);
        assert(text_less(a, b) == text_less(a.drop_first(), b.drop_first()));
    } else {
        assert(a[0] < b[0] || a[0] > b[0]);
    }
}

/// A text that begins another sorts before it exactly when it is shorter: a
/// proper prefix comes first, and no text sorts before itself.
pub proof fn lemma_text_less_prefix(a: Seq<char>, b: Seq<char>)
    requires
        a.len() <= b.len(),
        a == b.subrange(0, a.len() as int),
    ensures
        text_less(a, b) <==> a.len() < b.len(),
        !text_less(b, a),
    decreases a.len(),
{
    if a.len() > 0 {
        assert(a[0] == b.subrange(0, a.len() as int)[0]);
        assert(a.drop_first() =~= b.drop_first().subrange(0, a.len() - 1));
        lemma_text_less_prefix(a.drop_first(), b.drop_first());
    }
}

/// In a list ordered by name, as the snapshot lists the remote participants,
/// an earlier name has the smaller code point at the first place where two
/// names differ.
pub proof fn lemma_sorted_names_at_first_difference(
    v: Seq<ParticipantView>,
    i: int,
    j: int,
    k: int,
)
    requires
        sorted_by_name(v),
        0 <= i < j < v.len(),
        0 <= k < v[i].name@.len(),
        k < v[j].name@.len(),
        v[i].name@.subrange(0, k) == v[j].name@.subrange(0, k),
        v[i].name@[k] != v[j].name@[k],
    ensures
        v[i].name@[k] < v[j].name@[k],
{
    let a = v[i].name@;
    let b = v[j].name@;
    assert(!text_less(b, a));
    lemma_text_less_at_first_difference(b, a, k);
}

/// In a list ordered by name, a name never comes after a longer name that it begins.
pub proof fn lemma_sorted_names_prefix_first(v: Seq<ParticipantView>, i: int, j: int)
    requires
        sorted_by_name(v),
        0 <= i < j < v.len(),
        v[j].name@.len() <= v[i].name@.len(),
        v[j].name@ == v[i].name@.subrange(0, v[j].name@.len() as int),
    ensures
        v[j].name@ == v[i].name@,
{
    let a = v[i].name@;
    let b = v[j].name@;
    assert(!text_less(b, a));
    lemma_text_less_prefix(b, a);
    assert(b.len() == a.len());
    assert(a.subrange(0, a.len() as int) =~= a);
}

proof fn lemma_named_none(v: Seq<ParticipantView>, name: Seq<char>)
    requires
        forall|i: int| 0 <= i < v.len() ==> v[i].name@ != name,
    ensures
        named(v, name) == Seq::<ParticipantView>::empty(),
    decreases v.len(),
{
    reveal(Seq::filter);
    if v.len() > 0 {
        lemma_named_none(v.drop_last(), name);
    }
}

proof fn lemma_named_one(p: ParticipantView, name: Seq<char>)
    ensures
        named(seq![p], name) == (if p.name@ == name {
            seq![p]
        } else {
            Seq::<ParticipantView>::empty()
        }),
{
    reveal_with_fuel(Seq::filter, 2);
    assert(seq![p].drop_last() =~= Seq::<ParticipantView>::empty());
}

/// Inserting `x` at `p`, after every participant that does not sort after it
/// and before every one that does, keeps the order sorted and stable.
proof fn lemma_insert_sorted(before: Seq<ParticipantView>, x: ParticipantView, p: int, done: Seq<ParticipantView>)
    requires
        0 <= p <= before.len(),
        sorted_by_name(before),
        forall|k: int| 0 <= k < p ==> !text_less(x.name@, #[trigger] before[k].name@),
        p < before.len() ==> text_less(x.name@, before[p].name@),
        forall|name: Seq<char>| #[trigger] named(before, name) == named(done, name),
    ensures
        sorted_by_name(before.insert(p, x)),
        forall|name: Seq<char>| #[trigger] named(before.insert(p, x), name) == named(done.push(x), name),
{
    let after = before.insert(p, x);
    let prefix = before.subrange(0, p);
    let suffix = before.subrange(p, before.len() as int);
    assert(after =~= prefix + seq![x] + suffix);
    assert(before =~= prefix + suffix);
    assert(done.push(x) =~= done + seq![x]);
    assert forall|k: int| 0 <= k < suffix.len() implies text_less(x.name@, #[trigger] suffix[k].name@) by {
        let q = p + k;
        assert(suffix[k] == before[q]);
        if k > 0 {
            lemma_text_less_total(before[p].name@, before[q].name@);
            if text_less(before[p].name@, before[q].name@) {
                lemma_text_less_transitive(x.name@, before[p].name@, before[q].name@);
            }
        }
    }
    assert forall|i: int, j: int| 0 <= i < j < after.len() implies !text_less(
        after[j].name@,
        after[i].name@,
    ) by {
        if i < p && j == p {
            assert(after[i] == before[i] && after[j] == x);
        } else if i == p {
            assert(after[i] == x && after[j] == before[j - 1]);
            assert(text_less(x.name@, suffix[j - 1 - p].name@));
            if text_less(after[j].name@, x.name@) {
                lemma_text_less_transitive(x.name@, after[j].name@, x.name@);
                lemma_text_less_irreflexive(x.name@);
            }
        } else {
            let bi = if i < p { i } else { i - 1 };
            let bj = if j < p { j } else { j - 1 };
            assert(after[i] == before[bi] && after[j] == before[bj]);
        }
    }
    assert forall|name: Seq<char>| #[trigger] named(after, name) == named(done.push(x), name) by {
        let f = name_is(name);
        Seq::filter_distributes_over_add(prefix + seq![x], suffix, f);
        Seq::filter_distributes_over_add(prefix, seq![x], f);
        Seq::filter_distributes_over_add(prefix, suffix, f);
        Seq::filter_distributes_over_add(done, seq![x], f);
        lemma_named_one(x, name);
        assert(named(after, name) == named(prefix, name) + named(seq![x], name) + named(suffix, name));
        assert(named(done.push(x), name) == named(done, name) + named(seq![x], name));
        assert(named(before, name) == named(prefix, name) + named(suffix, name));
        assert(named(before, name) == named(done, name));
        if x.name@ == name {
            assert forall|k: int| 0 <= k < suffix.len() implies suffix[k].name@ != name by {
                assert(text_less(x.name@, suffix[k].name@));
                lemma_text_less_irreflexive(x.name@);
            }
            lemma_named_none(suffix, name);
            assert(named(after, name) =~= named(prefix, name) + seq![x]);
            assert(named(before, name) =~= named(prefix, name));
        } else {
            assert(named(after, name) =~= named(prefix, name) + named(suffix, name));
        }
    }
}

/// Sorts participants by name, keeping the order of equal names.
pub fn sort_by_name(v: Vec<ParticipantView>) -> (r: Vec<ParticipantView>)
    ensures
        r@.len() == v@.len(),
        sorted_by_name(r@),
        forall|name: Seq<char>| #[trigger] named(r@, name) == named(v@, name),
{
    let mut out: Vec<ParticipantView> = Vec::new();
    let mut names: Vec<Vec<char>> = Vec::new();
    let mut rest = v;
    let ghost input = rest@;
    let ghost mut i: int = 0;
    assert(input.subrange(0, 0) =~= Seq::<ParticipantView>::empty());
    assert(input.subrange(0, input.len() as int) =~= input);
    while rest.len() > 0
        invariant
            0 <= i <= input.len(),
            rest@ == input.subrange(i, input.len() as int),
            out@.len() == i,
            names@.len() == i,
            forall|k: int| 0 <= k < i ==> #[trigger] names@[k]@ == out@[k].name@,
            sorted_by_name(out@),
            forall|name: Seq<char>|
                #[trigger] named(out@, name) == named(input.subrange(0, i), name),
        decreases rest.len(),
    {
        let x = rest.remove(0);
        let xname = chars_of(x.name.as_str());
        let ghost before = out@;
        let mut p: usize = 0;
        while p < out.len() && !text_less_exec(&xname, &names[p])
            invariant
                p <= out@.len(),
                out@ == before,
                xname@ == x.name@,
                names@.len() == out@.len(),
                forall|k: int| 0 <= k < out@.len() ==> #[trigger] names@[k]@ == out@[k].name@,
                forall|k: int| 0 <= k < p ==> !text_less(x.name@, #[trigger] out@[k].name@),
            decreases out.len() - p,
        {
            p = p + 1;
        }
        proof {
            assert(input.subrange(0, i + 1) =~= input.subrange(0, i).push(x));
            lemma_insert_sorted(before, x, p as int, input.subrange(0, i));
            i = i + 1;
        }
        let ghost names_before = names@;
        out.insert(p, x);
        names.insert(p, xname);
        proof {
            assert forall|k: int| 0 <= k < i implies #[trigger] names@[k]@ == out@[k].name@ by {
                if k < p {
                    assert(names@[k] == names_before[k] && out@[k] == before[k]);
                } else if k > p {
                    assert(names@[k] == names_before[k - 1] && out@[k] == before[k - 1]);
                }
            }
        }
    }
    out
}


/// The local participant first, then the others sorted by name.
pub fn order_participants(local: ParticipantView, remotes: Vec<ParticipantView>) -> (r: Vec<
    ParticipantView,
>)
    ensures
        r@.len() == remotes@.len() + 1,
        r@[0] == local,
        sorted_by_name(r@.drop_first()),
        forall|name: Seq<char>| #[trigger] named(r@.drop_first(), name) == named(remotes@, name),
{
    let mut sorted = sort_by_name(remotes);
    let mut r: Vec<ParticipantView> = Vec::new();
    r.push(local);
    let ghost tail = sorted@;
    r.append(&mut sorted);
    assert(r@.drop_first() =~= tail);
    r
}

// ------------------------------------------------------------------ snapshot

/// The local participant: its microphone is muted when the session's is off.
pub fn local_participant(identity: &str, name: &str, speaking: bool, mic_enabled: bool) -> (r:
    ParticipantView)
    ensures
        r.identity@ == identity@,
        r.name@ == shown_name(name@, identity@),
        r.is_local,
        r.speaking == speaking,
        r.mic_muted == !mic_enabled,
{
    ParticipantView {
        identity: owned(identity),
        name: display_name(name, identity),
        is_local: true,
        speaking,
        mic_muted: !mic_enabled,
    }
}

/// A remote participant: muted unless one of its audio tracks is live.
pub fn remote_participant(peer: &PeerInfo) -> (r: ParticipantView)
    ensures
        r.identity@ == peer.identity@,
        r.name@ == shown_name(peer.name@, peer.identity@),
        !r.is_local,
        r.speaking == peer.speaking,
        r.mic_muted == !live_mic(peer.tracks@),
{
    ParticipantView {
        identity: owned(peer.identity.as_str()),
        name: display_name(peer.name.as_str(), peer.identity.as_str()),
        is_local: false,
        speaking: peer.speaking,
        mic_muted: !has_live_mic(&peer.tracks),
    }
}

/// The full state of a session.
pub fn snapshot_of(
    connection: LinkState,
    room: String,
    local: ParticipantView,
    remotes: Vec<ParticipantView>,
    mic_enabled: bool,
    deafened: bool,
) -> (r: Snapshot)
    ensures
        r.connection@ == link_label(connection),
        r.room == room,
        r.identity@ == local.identity@,
        r.participants@.len() == remotes@.len() + 1,
        r.participants@[0] == local,
        sorted_by_name(r.participants@.drop_first()),
        forall|name: Seq<char>|
            #[trigger] named(r.participants@.drop_first(), name) == named(remotes@, name),
        r.mic_enabled == mic_enabled,
        r.deafened == deafened,
{
    let identity = owned(local.identity.as_str());
    Snapshot {
        connection: connection_label(connection),
        room,
        identity,
        participants: order_participants(local, remotes),
        mic_enabled,
        deafened,
    }
}

// ------------------------------------------------------------------ requests

pub open spec fn not_in_room_message() -> Seq<char> {
    "还没进入房间"@
}

pub open spec fn mic_unpublished_message() -> Seq<char> {
    "麦克风没有发布成功,无法切换"@
}

/// The microphone state of a session.
#[derive(Debug, Clone, Copy)]
pub struct MicState {
    pub mic_enabled: bool,
    /// Whether the microphone track was published.
    pub published: bool,
}

/// What a microphone switch does.
#[derive(Debug)]
pub enum MicPlan {
    /// Already as asked: nothing changes and nothing is reported.
    Unchanged,
    /// Mute the published track, then report the new state.
    Mute,
    /// Unmute the published track, then report the new state.
    Unmute,
    Refuse(String),
}

/// Decides a microphone switch: refused outside a room or without a published
/// track; nothing to do when the microphone is already as asked.
pub fn plan_mic(session: Option<MicState>, enabled: bool) -> (r: MicPlan)
    ensures
        match session {
            None => r matches MicPlan::Refuse(e) && e@ == not_in_room_message(),
            Some(s) => if s.mic_enabled == enabled {
                r is Unchanged
            } else if !s.published {
                r matches MicPlan::Refuse(e) && e@ == mic_unpublished_message()
            } else if enabled {
                r is Unmute
            } else {
                r is Mute
            },
        },
{
    match session {
        None => MicPlan::Refuse(owned("还没进入房间")),
        Some(s) => if s.mic_enabled == enabled {
            MicPlan::Unchanged
        } else if !s.published {
            MicPlan::Refuse(owned("麦克风没有发布成功,无法切换"))
        } else if enabled {
            MicPlan::Unmute
        } else {
            MicPlan::Mute
        },
    }
}

/// What a deafen switch does.
#[derive(Debug)]
pub enum DeafenPlan {
    /// Already as asked: nothing changes and nothing is reported.
    Unchanged,
    /// Set the subscription of every remote audio track to `subscribe`, then
    /// report the new state.
    Apply { subscribe: bool },
    Refuse(String),
}

/// Decides a deafen switch: refused outside a room; otherwise every remote
/// audio track is unsubscribed to deafen and subscribed again to listen.
pub fn plan_deafen(session_deafened: Option<bool>, deafened: bool) -> (r: DeafenPlan)
    ensures
        match session_deafened {
            None => r matches DeafenPlan::Refuse(e) && e@ == not_in_room_message(),
            Some(d) => if d == deafened {
                r is Unchanged
            } else {
                r == (DeafenPlan::Apply { subscribe: !deafened })
            },
        },
{
    match session_deafened {
        None => DeafenPlan::Refuse(owned("还没进入房间")),
        Some(d) => if d == deafened {
            DeafenPlan::Unchanged
        } else {
            DeafenPlan::Apply { subscribe: !deafened }
        },
    }
}

// ------------------------------------------------------------------ room events

/// What the session reacts to in a room event.
#[derive(Debug)]
pub enum RoomEventKind {
    TrackPublished,
    TrackSubscribed,
    /// A chat message; `sender` is the sender's name and identity, if known.
    ChatMessage { id: String, sender: Option<(String, String)>, text: String, timestamp: i64 },
    Reconnecting,
    Reconnected,
    /// The connection ended; `reason` is the reason as the SDK prints it.
    Disconnected { reason: String },
    /// A remote track could not be subscribed; `error` as the SDK prints it.
    TrackSubscriptionFailed { error: String },
    Other,
}

/// A chat line for the window.
#[derive(Debug, Clone)]
pub struct ChatLine {
    pub id: String,
    /// The sender's identity; none for a message from the system.
    pub identity: Option<String>,
    /// The sender's name as the room reports it; none for a message from the system.
    pub name: Option<String>,
    /// The name to show: the sender's name, its identity when that is blank,
    /// or `(系统)` for the system.
    pub from: String,
    pub text: String,
    pub timestamp: i64,
}

/// What to do about a room event; after every event the full state is reported again.
#[derive(Debug)]
pub struct EventPlan {
    /// Unsubscribe remote audio tracks that got subscribed, because the session is deafened.
    pub enforce_deafen: bool,
    pub notice: Option<String>,
    pub chat: Option<ChatLine>,
}

pub open spec fn system_sender() -> Seq<char> {
    "(系统)"@
}

/// The notice an event shows, if any.
pub open spec fn event_notice(event: RoomEventKind) -> Option<Seq<char>> {
    match event {
        RoomEventKind::Reconnecting => Some("网络抖动,正在重连…"@),
        RoomEventKind::Reconnected => Some("已重新连接"@),
        RoomEventKind::Disconnected { reason } => Some("连接已断开("@ + reason@ + ")"@),
        RoomEventKind::TrackSubscriptionFailed { error } => Some("订阅对端音频失败: "@ + error@),
        _ => None,
    }
}

/// Decides the reaction to a room event. A newly published or subscribed track
/// must not make a deafened session audible; chat messages are shown with
/// their sender's name (or as from the system); connection changes and failed
/// subscriptions become notices.
pub fn plan_event(event: RoomEventKind, session_deafened: Option<bool>) -> (r: EventPlan)
    ensures
        r.enforce_deafen == ((event is TrackPublished || event is TrackSubscribed)
            && session_deafened == Some(true)),
        match event_notice(event) {
            Some(m) => r.notice matches Some(n) && n@ == m,
            None => r.notice is None,
        },
        match event {
            RoomEventKind::ChatMessage { id, sender, text, timestamp } => r.chat matches Some(c)
                && c.id == id && c.text == text && c.timestamp == timestamp && match sender {
                Some((name, identity)) => c.identity == Some(identity) && c.name == Some(name)
                    && c.from@ == shown_name(name@, identity@),
                None => c.identity is None && c.name is None && c.from@ == system_sender(),
            },
            _ => r.chat is None,
        },
{
    let ghost ev = event;
    let enforce_deafen = match &event {
        RoomEventKind::TrackPublished | RoomEventKind::TrackSubscribed => match session_deafened {
            Some(d) => d,
            None => false,
        },
        _ => false,
    };
    match event {
        RoomEventKind::ChatMessage { id, sender, text, timestamp } => {
            let (from, name, identity) = match sender {
                Some((name, identity)) => {
                    let from = display_name(name.as_str(), identity.as_str());
                    (from, Some(name), Some(identity))
                },
                None => (owned("(系统)"), None, None),
            };
            assert(event_notice(ev) is None);
            EventPlan {
                enforce_deafen,
                notice: None,
                chat: Some(ChatLine { id, identity, name, from, text, timestamp }),
            }
        },
        RoomEventKind::Reconnecting => EventPlan {
            enforce_deafen,
            notice: Some(owned("网络抖动,正在重连…")),
            chat: None,
        },
        RoomEventKind::Reconnected => EventPlan {
            enforce_deafen,
            notice: Some(owned("已重新连接")),
            chat: None,
        },
        RoomEventKind::Disconnected { reason } => EventPlan {
            enforce_deafen,
            notice: Some(concat3("连接已断开(", reason.as_str(), ")")),
            chat: None,
        },
        RoomEventKind::TrackSubscriptionFailed { error } => EventPlan {
            enforce_deafen,
            notice: Some(concat2("订阅对端音频失败: ", error.as_str())),
            chat: None,
        },
        _ => EventPlan { enforce_deafen, notice: None, chat: None },
    }
}

// ------------------------------------------------------------------ devices

/// The device list for the menu: the first device is the system default.
pub fn device_views(devices: Vec<(String, String)>) -> (r: Vec<DeviceView>)
    ensures
        r@.len() == devices@.len(),
        forall|i: int|
            #![trigger r@[i]]
            0 <= i < r@.len() ==> r@[i].id == devices@[i].0 && r@[i].name == devices@[i].1
                && r@[i].is_default == (i == 0),
{
    let mut rest = devices;
    let ghost input = rest@;
    let mut r: Vec<DeviceView> = Vec::new();
    assert(input.subrange(0, input.len() as int) =~= input);
    while rest.len() > 0
        invariant
            r@.len() + rest@.len() == input.len(),
            rest@ == input.subrange(r@.len() as int, input.len() as int),
            forall|k: int|
                #![trigger r@[k]]
                0 <= k < r@.len() ==> r@[k].id == input[k].0 && r@[k].name == input[k].1
                    && r@[k].is_default == (k == 0),
        decreases rest.len(),
    {
        let ghost at = r@.len() as int;
        assert(rest@[0] == input[at]);
        let (id, name) = rest.remove(0);
        let is_default = r.len() == 0;
        r.push(DeviceView { id, name, is_default });
        assert(rest@ =~= input.subrange(r@.len() as int, input.len() as int));
    }
    r
}

/// The kinds of audio devices.
#[derive(Debug, Clone, Copy, PartialEq, Eq)]
pub enum DeviceKind {
    Microphone,
    Speaker,
}

pub open spec fn device_kind_of(kind: Seq<char>) -> Option<DeviceKind> {
    if kind == "mic"@ {
        Some(DeviceKind::Microphone)
    } else if kind == "speaker"@ {
        Some(DeviceKind::Speaker)
    } else {
        None
    }
}

/// Reads a device kind: `mic` or `speaker`.
pub fn device_kind(kind: &str) -> (r: Result<DeviceKind, String>)
    ensures
        match device_kind_of(kind@) {
            Some(k) => r == Ok::<DeviceKind, String>(k),
            None => r matches Err(e) && e@ == "未知设备类型 "@ + kind@,
        },
{
    let k = chars_of(kind);
    if chars_equal(&k, &chars_of("mic")) {
        Ok(DeviceKind::Microphone)
    } else if chars_equal(&k, &chars_of("speaker")) {
        Ok(DeviceKind::Speaker)
    } else {
        Err(concat2("未知设备类型 ", kind))
    }
}

/// Whether a device with this ID answers a request for `wanted` (empty means any).
pub open spec fn device_answers(id: Seq<char>, wanted: Seq<char>) -> bool {
    wanted.len() == 0 || id == wanted
}

/// The first device that answers a request for `wanted`.
pub fn first_matching_device(ids: &Vec<String>, wanted: &str) -> (r: Option<usize>)
    ensures
        r matches Some(i) ==> i < ids@.len() && device_answers(ids@[i as int]@, wanted@) && forall|
            j: int,
        | 0 <= j < i ==> !device_answers(#[trigger] ids@[j]@, wanted@),
        r is None ==> forall|j: int|
            0 <= j < ids@.len() ==> !device_answers(#[trigger] ids@[j]@, wanted@),
{
    let w = chars_of(wanted);
    let mut i: usize = 0;
    while i < ids.len()
        invariant
            i <= ids@.len(),
            w@ == wanted@,
            forall|j: int| 0 <= j < i ==> !device_answers(#[trigger] ids@[j]@, wanted@),
        decreases ids.len() - i,
    {
        if w.len() == 0 || chars_equal(&chars_of(ids[i].as_str()), &w) {
            return Some(i);
        }
        i = i + 1;
    }
    None
}

pub open spec fn missing_device_message(kind: DeviceKind) -> Seq<char> {
    match kind {
        DeviceKind::Microphone => "找不到这个麦克风"@,
        DeviceKind::Speaker => "找不到这个扬声器"@,
    }
}

/// The device to switch to: the first that answers `wanted`, or an error
/// naming the kind when none does.
pub fn choose_device(kind: DeviceKind, ids: &Vec<String>, wanted: &str) -> (r: Result<usize, String>)
    ensures
        r matches Ok(i) ==> i < ids@.len() && device_answers(ids@[i as int]@, wanted@) && forall|
            j: int,
        | 0 <= j < i ==> !device_answers(#[trigger] ids@[j]@, wanted@),
        r matches Err(e) ==> e@ == missing_device_message(kind) && forall|j: int|
            0 <= j < ids@.len() ==> !device_answers(#[trigger] ids@[j]@, wanted@),
        r is Err || r is Ok,
{
    match first_matching_device(ids, wanted) {
        Some(i) => Ok(i),
        None => Err(
            match kind {
                DeviceKind::Microphone => owned("找不到这个麦克风"),
                DeviceKind::Speaker => owned("找不到这个扬声器"),
            },
        ),
    }
}

/// Device choices made in the device menu while outside a room.
#[derive(Debug, Clone)]
pub struct RememberedDevices {
    pub mic: Option<String>,
    pub speaker: Option<String>,
}

/// Records a device choice made outside a room for the next join; a choice of
/// an unknown kind records nothing.
pub fn remember_device(devices: &mut RememberedDevices, kind: &str, id: String)
    ensures
        match device_kind_of(kind@) {
            Some(DeviceKind::Microphone) => final(devices).mic == Some(id) && final(devices).speaker
                == old(devices).speaker,
            Some(DeviceKind::Speaker) => final(devices).speaker == Some(id) && final(devices).mic
                == old(devices).mic,
            None => final(devices).mic == old(devices).mic && final(devices).speaker
                == old(devices).speaker,
        },
{
    match device_kind(kind) {
        Ok(DeviceKind::Microphone) => devices.mic = Some(id),
        Ok(DeviceKind::Speaker) => devices.speaker = Some(id),
        Err(_) => {},
    }
}

/// The device a join opens: the one last chosen in the device menu outside a
/// room, if any, else the form's choice.
pub fn device_for_join(form_choice: String, remembered: Option<String>) -> (r: String)
    ensures
        r == match remembered {
            Some(s) => s,
            None => form_choice,
        },
{
    match remembered {
        Some(s) => s,
        None => form_choice,
    }
}

// ------------------------------------------------------------------ joining

pub open spec fn missing_url_message() -> Seq<char> {
    "请填服务器地址"@
}

/// The WebSocket URL to connect to, or an error when no address was given.
pub fn connect_url(raw: &str) -> (r: Result<String, String>)
    ensures
        normalized_url(raw@).len() == 0 ==> (r matches Err(e) && e@ == missing_url_message()),
        normalized_url(raw@).len() > 0 ==> (r matches Ok(u) && u@ == normalized_url(raw@)),
{
    let url = normalize_url(raw);
    if url.as_str().is_empty() {
        Err(owned("请填服务器地址"))
    } else {
        Ok(url)
    }
}

/// The token request a join makes: the form's key, room, identity, display
/// name and validity, with the saved secret.
pub open spec fn join_request(input: ConnectInput, api_secret: String, ttl_seconds: u64) -> MintRequest {
    MintRequest {
        api_key: input.api_key,
        api_secret,
        identity: input.identity,
        display_name: Some(input.display_name),
        room: input.room,
        ttl_seconds,
    }
}

/// The token a join signs names the participant: its request carries the
/// form's display name, so the claims hold a `name` equal to that name without
/// surrounding whitespace whenever it is not blank, next to the form's key,
/// identity and room.
pub proof fn lemma_join_token_carries_display_name(
    input: ConnectInput,
    api_secret: String,
    ttl_seconds: u64,
    now: u64,
)
    ensures
        join_request(input, api_secret, ttl_seconds) == (MintRequest {
            api_key: input.api_key,
            api_secret,
            identity: input.identity,
            display_name: Some(input.display_name),
            room: input.room,
            ttl_seconds,
        }),
        trim(input.display_name@).len() > 0 ==> request_claims(
            join_request(input, api_secret, ttl_seconds),
            now,
        ) == claims_json(
            input.api_key@,
            input.identity@,
            input.room@,
            Some(trim(input.display_name@)),
            (now + ttl_seconds) as nat,
            not_before(now),
        ),
{
}

/// Signs a token for the form's room and identity and prepares the join.
pub fn join_input(input: ConnectInput, url: String, api_secret: String) -> (r: Result<JoinInput, String>)
    ensures
        match ttl_outcome(input.ttl@) {
            Err(m) => r matches Err(e) && e@ == m,
            Ok(v) => match credentials_problem(join_request(input, api_secret, v)) {
                Some(m) => r matches Err(e) && e@ == m,
                None => true,
            },
        },
        r matches Ok(j) ==> ttl_outcome(input.ttl@) is Ok && j.url == url && j.identity
            == input.identity && j.display_name == input.display_name && j.echo_cancellation
            == input.echo_cancellation && j.noise_suppression == input.noise_suppression
            && j.auto_gain_control == input.auto_gain_control && j.mic_device_id
            == input.mic_device_id && j.speaker_device_id == input.speaker_device_id && exists|
            now: u64,
        |
            #[trigger] mint_outcome(
                join_request(input, api_secret, ttl_outcome(input.ttl@)->Ok_0),
                now,
            ) == Ok::<Seq<char>, Seq<char>>(j.token@),
        r matches Ok(j) ==> exists|now: u64|
            #[trigger] mint_outcome(
                (MintRequest {
                    api_key: input.api_key,
                    api_secret,
                    identity: input.identity,
                    display_name: Some(input.display_name),
                    room: input.room,
                    ttl_seconds: ttl_outcome(input.ttl@)->Ok_0,
                }),
                now,
            ) == Ok::<Seq<char>, Seq<char>>(j.token@),
        r matches Err(e) ==> match ttl_outcome(input.ttl@) {
            Err(m) => e@ == m,
            Ok(v) => match credentials_problem(join_request(input, api_secret, v)) {
                Some(m) => e@ == m,
                None => (e@ == ttl_too_large_message() && v > 0) || exists|now: u64|
                    #[trigger] mint_outcome(join_request(input, api_secret, v), now) == Err::<
                        Seq<char>,
                        Seq<char>,
                    >(e@),
            },
        },
{
    let mint_input = MintInput {
        api_key: input.api_key.clone(),
        api_secret,
        identity: input.identity.clone(),
        display_name: Some(input.display_name.clone()),
        room: input.room.clone(),
        ttl: input.ttl.clone(),
    };
    let request = match mint_input.into_request() {
        Ok(q) => q,
        Err(e) => return Err(e),
    };
    assert(request == join_request(input, api_secret, request.ttl_seconds));
    let token = match mint(&request) {
        Ok(t) => t,
        Err(e) => return Err(e),
    };
    Ok(
        JoinInput {
            url,
            token,
            identity: input.identity,
            display_name: input.display_name,
            echo_cancellation: input.echo_cancellation,
            noise_suppression: input.noise_suppression,
            auto_gain_control: input.auto_gain_control,
            mic_device_id: input.mic_device_id,
            speaker_device_id: input.speaker_device_id,
        },
    )
}

} // verus!
