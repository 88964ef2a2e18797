//! Local listening preferences: a playback volume per participant identity,
//! kept per server.

use vstd::prelude::*;

use crate::text::{chars_equal, chars_of, owned};

verus! {

broadcast use vstd::string::group_string_axioms;

/// The volume of a participant nobody has adjusted: the level as received.
pub const DEFAULT_VOLUME: u16 = 100;

/// The loudest volume that can be set: twice the level as received.
pub const MAX_VOLUME: u16 = 200;

pub open spec fn volume_range_message() -> Seq<char> {
    "音量必须在 0–200% 之间"@
}

/// Accepts a volume percentage from 0 to 200.
pub fn check_volume(percent: u16) -> (r: Result<u16, String>)
    ensures
        percent <= MAX_VOLUME ==> r == Ok::<u16, String>(percent),
        percent > MAX_VOLUME ==> (r matches Err(e) && e@ == volume_range_message()),
{
    if percent > MAX_VOLUME {
        return Err(owned("音量必须在 0–200% 之间"));
    }
    Ok(percent)
}

// ------------------------------------------------------------------ keyed entries

/// Whether no two entries share a key.
pub open spec fn keys_unique<V>(e: Seq<(String, V)>) -> bool {
    forall|i: int, j: int| 0 <= i < j < e.len() ==> e[i].0@ != e[j].0@
}

/// The map that the entries spell, each value seen through `f`; a later entry
/// replaces an earlier one with the same key.
pub open spec fn keyed_map<V, W>(e: Seq<(String, V)>, f: spec_fn(V) -> W) -> Map<Seq<char>, W>
    decreases e.len(),
{
    if e.len() == 0 {
        Map::empty()
    } else {
        keyed_map(e.drop_last(), f).insert(e.last().0@, f(e.last().1))
    }
}

pub open spec fn has_key<V>(e: Seq<(String, V)>, k: Seq<char>) -> bool {
    exists|i: int| 0 <= i < e.len() && e[i].0@ == k
}

proof fn lemma_keyed_dom<V, W>(e: Seq<(String, V)>, f: spec_fn(V) -> W, k: Seq<char>)
    ensures
        keyed_map(e, f).contains_key(k) <==> has_key(e, k),
    decreases e.len(),
{
    if e.len() > 0 {
        lemma_keyed_dom(e.drop_last(), f, k);
        if has_key(e.drop_last(), k) {
            let i = choose|i: int| 0 <= i < e.drop_last().len() && e.drop_last()[i].0@ == k;
            assert(e[i].0@ == k);
        }
        if has_key(e, k) && e.last().0@ != k {
            let i = choose|i: int| 0 <= i < e.len() && e[i].0@ == k;
            assert(e.drop_last()[i].0@ == k);
        }
    }
}

proof fn lemma_keyed_value<V, W>(e: Seq<(String, V)>, f: spec_fn(V) -> W, i: int)
    requires
        keys_unique(e),
        0 <= i < e.len(),
    ensures
        keyed_map(e, f).contains_key(e[i].0@),
        keyed_map(e, f)[e[i].0@] == f(e[i].1),
    decreases e.len(),
{
    if i < e.len() - 1 {
        let d = e.drop_last();
        assert(keys_unique(d)) by {
            assert forall|a: int, b: int| 0 <= a < b < d.len() implies d[a].0@ != d[b].0@ by {
                assert(d[a] == e[a] && d[b] == e[b]);
            }
        }
        lemma_keyed_value(d, f, i);
        assert(d[i] == e[i]);
        assert(e.last().0@ != e[i].0@);
    }
}

proof fn lemma_keyed_update<V, W>(e: Seq<(String, V)>, f: spec_fn(V) -> W, j: int, entry: (String, V))
    requires
        keys_unique(e),
        0 <= j < e.len(),
        entry.0@ == e[j].0@,
    ensures
        keys_unique(e.update(j, entry)),
        keyed_map(e.update(j, entry), f) == keyed_map(e, f).insert(entry.0@, f(entry.1)),
{
    let u = e.update(j, entry);
    assert(keys_unique(u)) by {
        assert forall|a: int, b: int| 0 <= a < b < u.len() implies u[a].0@ != u[b].0@ by {
            assert(u[a].0@ == e[a].0@ && u[b].0@ == e[b].0@);
        }
    }
    let m1 = keyed_map(u, f);
    let m2 = keyed_map(e, f).insert(entry.0@, f(entry.1));
    assert forall|k: Seq<char>| m1.contains_key(k) <==> m2.contains_key(k) by {
        lemma_keyed_dom(u, f, k);
        lemma_keyed_dom(e, f, k);
        if has_key(e, k) {
            let i = choose|i: int| 0 <= i < e.len() && e[i].0@ == k;
            assert(u[i].0@ == k);
        }
        if has_key(u, k) {
            let i = choose|i: int| 0 <= i < u.len() && u[i].0@ == k;
            assert(e[i].0@ == k);
        }
    }
    assert forall|k: Seq<char>| #[trigger] m1.contains_key(k) implies m1[k] == m2[k] by {
        lemma_keyed_dom(u, f, k);
        let i = choose|i: int| 0 <= i < u.len() && u[i].0@ == k;
        lemma_keyed_value(u, f, i);
        if i != j {
            lemma_keyed_value(e, f, i);
        }
    }
    assert(m1 =~= m2);
}

proof fn lemma_keyed_push<V, W>(e: Seq<(String, V)>, f: spec_fn(V) -> W, entry: (String, V))
    requires
        keys_unique(e),
        !has_key(e, entry.0@),
    ensures
        keys_unique(e.push(entry)),
        keyed_map(e.push(entry), f) == keyed_map(e, f).insert(entry.0@, f(entry.1)),
{
    let p = e.push(entry);
    assert(p.drop_last() =~= e);
    assert(keys_unique(p)) by {
        assert forall|a: int, b: int| 0 <= a < b < p.len() implies p[a].0@ != p[b].0@ by {
            if b == e.len() {
                assert(p[a] == e[a]);
            } else {
                assert(p[a] == e[a] && p[b] == e[b]);
            }
        }
    }
}

/// Entries with the same keys and the same values through `f` spell the same map.
proof fn lemma_keyed_same<V, W>(a: Seq<(String, V)>, b: Seq<(String, V)>, f: spec_fn(V) -> W)
    requires
        a.len() == b.len(),
        forall|k: int| 0 <= k < a.len() ==> #[trigger] a[k].0@ == b[k].0@ && f(a[k].1) == f(b[k].1),
    ensures
        keyed_map(a, f) == keyed_map(b, f),
        keys_unique(b) ==> keys_unique(a),
    decreases a.len(),
{
    if a.len() > 0 {
        lemma_keyed_same(a.drop_last(), b.drop_last(), f);
        assert(a.last().0@ == b.last().0@);
    }
    if keys_unique(b) {
        assert forall|i: int, j: int| 0 <= i < j < a.len() implies a[i].0@ != a[j].0@ by {
            assert(a[i].0@ == b[i].0@ && a[j].0@ == b[j].0@);
        }
    }
}

/// The index of the entry with key `k`, if any.
fn find_key<V>(e: &Vec<(String, V)>, k: &str) -> (r: Option<usize>)
    ensures
        r matches Some(i) ==> i < e@.len() && e@[i as int].0@ == k@,
        r is None ==> !has_key(e@, k@),
{
    let key = chars_of(k);
    let mut i: usize = 0;
    while i < e.len()
        invariant
            i <= e@.len(),
            key@ == k@,
            forall|j: int| 0 <= j < i ==> e@[j].0@ != k@,
        decreases e.len() - i,
    {
        let name = chars_of(e[i].0.as_str());
        if chars_equal(&name, &key) {
            return Some(i);
        }
        i = i + 1;
    }
    None
}

/// Sets the value of key `k` in the entries.
fn upsert<V, W>(e: Vec<(String, V)>, k: String, v: V, Ghost(f): Ghost<spec_fn(V) -> W>) -> (r: Vec<
    (String, V),
>)
    requires
        keys_unique(e@),
    ensures
        keys_unique(r@),
        keyed_map(r@, f) == keyed_map(e@, f).insert(k@, f(v)),
        forall|i: int| 0 <= i < r@.len() ==> r@[i].1 == v || e@.contains(#[trigger] r@[i]),
{
    let mut e = e;
    match find_key(&e, k.as_str()) {
        Some(i) => {
            let ghost before = e@;
            let _old = e.remove(i);
            e.insert(i, (k, v));
            proof {
                assert(e@ =~= before.update(i as int, (k, v)));
                lemma_keyed_update(before, f, i as int, (k, v));
                assert forall|j: int| 0 <= j < e@.len() implies e@[j].1 == v || before.contains(
                    #[trigger] e@[j],
                ) by {
                    if j != i {
                        assert(e@[j] == before[j]);
                    }
                }
            }
        },
        None => {
            let ghost before = e@;
            e.push((k, v));
            proof {
                lemma_keyed_push(before, f, (k, v));
                assert forall|j: int| 0 <= j < e@.len() implies e@[j].1 == v || before.contains(
                    #[trigger] e@[j],
                ) by {
                    if j < before.len() {
                        assert(e@[j] == before[j]);
                    }
                }
            }
        },
    }
    e
}

// ------------------------------------------------------------------ preferences

/// The playback volumes, per server address and then per participant identity.
#[derive(Debug)]
pub struct Preferences {
    servers: Vec<(String, Vec<(String, u16)>)>,
}

pub open spec fn value_fn() -> spec_fn(u16) -> u16 {
    |x: u16| x
}

/// The volumes that one server's entries spell.
pub open spec fn users_map(v: Vec<(String, u16)>) -> Map<Seq<char>, u16> {
    keyed_map(v@, value_fn())
}

pub open spec fn users_fn() -> spec_fn(Vec<(String, u16)>) -> Map<Seq<char>, u16> {
    |v: Vec<(String, u16)>| users_map(v)
}

/// The nested map that server entries spell, later entries replacing earlier ones.
pub open spec fn servers_view(s: Seq<(String, Vec<(String, u16)>)>) -> Map<
    Seq<char>,
    Map<Seq<char>, u16>,
> {
    keyed_map(s, users_fn())
}

/// The volume a participant is played at: the stored one when it is a valid
/// percentage, the level as received otherwise.
pub open spec fn volume_of(
    m: Map<Seq<char>, Map<Seq<char>, u16>>,
    server: Seq<char>,
    identity: Seq<char>,
) -> u16 {
    if m.contains_key(server) && m[server].contains_key(identity) && m[server][identity]
        <= MAX_VOLUME {
        m[server][identity]
    } else {
        DEFAULT_VOLUME
    }
}

/// The stored volumes of `server`, none when it has no entry yet.
pub open spec fn server_volumes(m: Map<Seq<char>, Map<Seq<char>, u16>>, server: Seq<char>) -> Map<
    Seq<char>,
    u16,
> {
    if m.contains_key(server) {
        m[server]
    } else {
        Map::empty()
    }
}

/// `m` after storing `value` for `identity` on `server`.
pub open spec fn with_volume(
    m: Map<Seq<char>, Map<Seq<char>, u16>>,
    server: Seq<char>,
    identity: Seq<char>,
    value: u16,
) -> Map<Seq<char>, Map<Seq<char>, u16>> {
    m.insert(server, server_volumes(m, server).insert(identity, value))
}

impl Default for Preferences {
    fn default() -> (p: Self)
        ensures
            p@ == Map::<Seq<char>, Map<Seq<char>, u16>>::empty(),
    {
        Preferences::new()
    }
}

impl View for Preferences {
    type V = Map<Seq<char>, Map<Seq<char>, u16>>;

    closed spec fn view(&self) -> Self::V {
        servers_view(self.servers@)
    }
}

/// Every server's identities are distinct.
pub open spec fn users_unique(s: Seq<(String, Vec<(String, u16)>)>) -> bool {
    forall|i: int| 0 <= i < s.len() ==> keys_unique(#[trigger] s[i].1@)
}

impl Preferences {
    #[verifier::type_invariant]
    closed spec fn well_formed(self) -> bool {
        keys_unique(self.servers@) && users_unique(self.servers@)
    }

    /// No volumes stored.
    pub fn new() -> (p: Self)
        ensures
            p@ == Map::<Seq<char>, Map<Seq<char>, u16>>::empty(),
    {
        let p = Preferences { servers: Vec::new() };
        assert(p@ =~= Map::<Seq<char>, Map<Seq<char>, u16>>::empty());
        p
    }

    /// The volume that `identity` on `server` is played at.
    pub fn get(&self, server: &str, identity: &str) -> (v: u16)
        ensures
            v == volume_of(self@, server@, identity@),
            v <= MAX_VOLUME,
    {
        proof {
            use_type_invariant(self);
        }
        let si = match find_key(&self.servers, server) {
            Some(i) => i,
            None => {
                proof {
                    lemma_keyed_dom(self.servers@, users_fn(), server@);
                }
                return DEFAULT_VOLUME;
            },
        };
        proof {
            lemma_keyed_value(self.servers@, users_fn(), si as int);
        }
        let users = &self.servers[si].1;
        let ui = match find_key(users, identity) {
            Some(i) => i,
            None => {
                proof {
                    lemma_keyed_dom(users@, value_fn(), identity@);
                }
                return DEFAULT_VOLUME;
            },
        };
        proof {
            assert(keys_unique(self.servers@[si as int].1@));
            lemma_keyed_value(users@, value_fn(), ui as int);
        }
        let value = users[ui].1;
        if value <= MAX_VOLUME {
            value
        } else {
            DEFAULT_VOLUME
        }
    }

    /// Remembers `percent` as the volume of `identity` on `server`; refuses
    /// values above 200 and then changes nothing.
    pub fn set(&mut self, server: &str, identity: &str, percent: u16) -> (r: Result<(), String>)
        ensures
            percent > MAX_VOLUME ==> (r matches Err(e) && e@ == volume_range_message()
                && final(self)@ == old(self)@),
            percent <= MAX_VOLUME ==> r is Ok && final(self)@ == with_volume(
                old(self)@,
                server@,
                identity@,
                percent,
            ),
    {
        match check_volume(percent) {
            Ok(_) => {},
            Err(e) => return Err(e),
        }
        self.store(server, identity, percent);
        Ok(())
    }

    /// Stores `value` for `identity` on `server` as it is.
    fn store(&mut self, server: &str, identity: &str, value: u16)
        ensures
            final(self)@ == with_volume(old(self)@, server@, identity@, value),
    {
        proof {
            use_type_invariant(&*self);
        }
        let mut servers: Vec<(String, Vec<(String, u16)>)> = Vec::new();
        std::mem::swap(&mut servers, &mut self.servers);
        let ghost before = servers@;
        match find_key(&servers, server) {
            Some(si) => {
                proof {
                    lemma_keyed_value(before, users_fn(), si as int);
                    assert(keys_unique(before[si as int].1@));
                }
                let (_name, users) = servers.remove(si);
                let users = upsert::<u16, u16>(users, owned(identity), value, Ghost(value_fn()));
                servers.insert(si, (owned(server), users));
                proof {
                    let entry = servers@[si as int];
                    assert(servers@ =~= before.update(si as int, entry));
                    lemma_keyed_update(before, users_fn(), si as int, entry);
                    assert forall|i: int| 0 <= i < servers@.len() implies keys_unique(
                        #[trigger] servers@[i].1@,
                    ) by {
                        if i != si {
                            assert(servers@[i] == before[i]);
                        }
                    }
                    assert(servers_view(servers@) =~= with_volume(
                        servers_view(before),
                        server@,
                        identity@,
                        value,
                    ));
                }
            },
            None => {
                proof {
                    lemma_keyed_dom(before, users_fn(), server@);
                }
                let empty: Vec<(String, u16)> = Vec::new();
                proof {
                    assert(users_map(empty) =~= Map::<Seq<char>, u16>::empty());
                }
                let users = upsert::<u16, u16>(empty, owned(identity), value, Ghost(value_fn()));
                servers.push((owned(server), users));
                proof {
                    let entry = servers@.last();
                    assert(servers@ =~= before.push(entry));
                    lemma_keyed_push(before, users_fn(), entry);
                    assert forall|i: int| 0 <= i < servers@.len() implies keys_unique(
                        #[trigger] servers@[i].1@,
                    ) by {
                        if i < before.len() {
                            assert(servers@[i] == before[i]);
                        }
                    }
                    assert(servers_view(servers@) =~= with_volume(
                        servers_view(before),
                        server@,
                        identity@,
                        value,
                    ));
                }
            },
        }
        self.servers = servers;
    }

    /// Preferences holding the given entries; a later entry for the same
    /// server, or for the same identity on one server, replaces an earlier one.
    pub fn from_entries(entries: Vec<(String, Vec<(String, u16)>)>) -> (p: Self)
        ensures
            p@ == servers_view(entries@),
    {
        let mut servers: Vec<(String, Vec<(String, u16)>)> = Vec::new();
        let mut i: usize = 0;
        while i < entries.len()
            invariant
                i <= entries@.len(),
                keys_unique(servers@),
                users_unique(servers@),
                keyed_map(servers@, users_fn()) == keyed_map(
                    entries@.subrange(0, i as int),
                    users_fn(),
                ),
            decreases entries.len() - i,
        {
            let users = &entries[i].1;
            let mut merged: Vec<(String, u16)> = Vec::new();
            let mut j: usize = 0;
            assert(keyed_map(merged@, value_fn()) =~= keyed_map(users@.subrange(0, 0), value_fn()));
            while j < users.len()
                invariant
                    j <= users@.len(),
                    keys_unique(merged@),
                    keyed_map(merged@, value_fn()) == keyed_map(
                        users@.subrange(0, j as int),
                        value_fn(),
                    ),
                decreases users.len() - j,
            {
                merged = upsert::<u16, u16>(
                    merged,
                    owned(users[j].0.as_str()),
                    users[j].1,
                    Ghost(value_fn()),
                );
                assert(users@.subrange(0, j + 1).drop_last() =~= users@.subrange(0, j as int));
                j = j + 1;
            }
            assert(users@.subrange(0, users@.len() as int) =~= users@);
            let ghost prior = servers@;
            servers = upsert::<Vec<(String, u16)>, Map<Seq<char>, u16>>(
                servers,
                owned(entries[i].0.as_str()),
                merged,
                Ghost(users_fn()),
            );
            proof {
                assert(entries@.subrange(0, i + 1).drop_last() =~= entries@.subrange(0, i as int));
                assert forall|k: int| 0 <= k < servers@.len() implies keys_unique(
                    #[trigger] servers@[k].1@,
                ) by {
                    if servers@[k].1 != merged {
                        assert(prior.contains(servers@[k]));
                        let m = choose|m: int| 0 <= m < prior.len() && prior[m] == servers@[k];
                        assert(keys_unique(prior[m].1@));
                    }
                }
            }
            i = i + 1;
        }
        assert(entries@.subrange(0, entries@.len() as int) =~= entries@);
        Preferences { servers }
    }

    /// The stored entries: each server once, each identity once per server.
    pub fn to_entries(&self) -> (r: Vec<(String, Vec<(String, u16)>)>)
        ensures
            servers_view(r@) == self@,
            keys_unique(r@),
            users_unique(r@),
    {
        proof {
            use_type_invariant(self);
        }
        let mut r: Vec<(String, Vec<(String, u16)>)> = Vec::new();
        let mut i: usize = 0;
        while i < self.servers.len()
            invariant
                i <= self.servers@.len(),
                keys_unique(self.servers@),
                users_unique(self.servers@),
                r@.len() == i,
                forall|k: int|
                    #![trigger r@[k]]
                    0 <= k < i ==> r@[k].0@ == self.servers@[k].0@ && users_map(r@[k].1)
                        == users_map(self.servers@[k].1) && keys_unique(r@[k].1@),
            decreases self.servers.len() - i,
        {
            let users = &self.servers[i].1;
            let mut copy: Vec<(String, u16)> = Vec::new();
            let mut j: usize = 0;
            while j < users.len()
                invariant
                    j <= users@.len(),
                    copy@.len() == j,
                    forall|k: int|
                        #![trigger copy@[k]]
                        0 <= k < j ==> copy@[k].0@ == users@[k].0@ && copy@[k].1 == users@[k].1,
                decreases users.len() - j,
            {
                copy.push((owned(users[j].0.as_str()), users[j].1));
                j = j + 1;
            }
            proof {
                assert(keys_unique(users@));
                lemma_keyed_same(copy@, users@, value_fn());
            }
            r.push((owned(self.servers[i].0.as_str()), copy));
            i = i + 1;
        }
        proof {
            lemma_keyed_same(r@, self.servers@, users_fn());
        }
        r
    }
}

// ------------------------------------------------------------------ laws

/// What is set is what is read back: after a successful `set`, `get` of the
/// same server and identity gives the set volume.
pub proof fn lemma_get_after_set(
    before: Map<Seq<char>, Map<Seq<char>, u16>>,
    server: Seq<char>,
    identity: Seq<char>,
    percent: u16,
)
    requires
        percent <= MAX_VOLUME,
    ensures
        volume_of(with_volume(before, server, identity, percent), server, identity) == percent,
{
}

/// Setting one participant's volume leaves every other participant, on this
/// server and on every other server, as it was.
pub proof fn lemma_set_keeps_others(
    before: Map<Seq<char>, Map<Seq<char>, u16>>,
    server: Seq<char>,
    identity: Seq<char>,
    percent: u16,
    other_server: Seq<char>,
    other_identity: Seq<char>,
)
    requires
        other_server != server || other_identity != identity,
    ensures
        volume_of(with_volume(before, server, identity, percent), other_server, other_identity)
            == volume_of(before, other_server, other_identity),
{
}

} // verus!
