use vstd::prelude::*;
use crate::error::{HopError, HopErrorView};
use crate::host::{Host, HostView, has_tag, opt_text, texts};
use crate::text::{
    contains_text, has_text, lemma_text_le_total, lemma_text_le_trans, lowercase, same_text,
    text_le, text_le_exec, to_lowercase,
};

verus! {

/// The saved hosts, each under the key it was stored by.
pub type HostMap = Map<Seq<char>, HostView>;

/// The text of an optional string slice.
pub open spec fn opt_str(s: Option<&str>) -> Option<Seq<char>> {
    match s {
        Some(t) => Some(t@),
        None => None,
    }
}

/// Whether `h` matches the lower-cased query `q`.
fn host_matches(h: &Host, q: &str) -> (b: bool)
    ensures
        b == matches_query(h@, q@),
{
    let name = to_lowercase(h.name.as_str());
    if contains_text(name.as_str(), q) {
        return true;
    }
    let hostname = to_lowercase(h.hostname.as_str());
    if contains_text(hostname.as_str(), q) {
        return true;
    }
    let mut i: usize = 0;
    while i < h.tags.len()
        invariant
            i <= h.tags.len(),
            !has_text(lowercase(h@.name), q@),
            !has_text(lowercase(h@.hostname), q@),
            forall|t: int| 0 <= t < i ==> !has_text(lowercase(#[trigger] h@.tags[t]), q@),
        decreases h.tags.len() - i,
    {
        let t = to_lowercase(h.tags[i].as_str());
        if contains_text(t.as_str(), q) {
            proof { assert(h@.tags[i as int] == h.tags@[i as int]@); }
            return true;
        }
        i = i + 1;
    }
    let g = match &h.group {
        Some(g) => to_lowercase(g.as_str()),
        None => {
            proof { reveal_strlit(""); }
            to_lowercase("")
        },
    };
    proof {
        reveal_strlit("");
        assert(""@ =~= Seq::<char>::empty());
    }
    contains_text(g.as_str(), q)
}

/// The views of a list of hosts.
pub open spec fn host_views(v: Seq<Host>) -> Seq<HostView> {
    v.map_values(|h: Host| h@)
}

/// The host stored under `name`, or the error for a missing one.
pub open spec fn lookup(m: HostMap, name: Seq<char>) -> Result<HostView, HopErrorView> {
    if m.contains_key(name) {
        Ok(m[name])
    } else {
        Err(HopErrorView::HostNotFound(name))
    }
}

/// The hosts after saving `h` under its own name; refused where that name is taken.
pub open spec fn added(m: HostMap, h: HostView) -> Result<HostMap, HopErrorView> {
    if m.contains_key(h.name) {
        Err(HopErrorView::HostExists(h.name))
    } else {
        Ok(m.insert(h.name, h))
    }
}

/// The hosts without the one under `name`, and that host; refused where there is none.
pub open spec fn removed(m: HostMap, name: Seq<char>) -> Result<(HostMap, HostView), HopErrorView> {
    if m.contains_key(name) {
        Ok((m.remove(name), m[name]))
    } else {
        Err(HopErrorView::HostNotFound(name))
    }
}

/// The hosts after the one under `old_name` moves to the key `new_name` and takes that name.
pub open spec fn renamed(m: HostMap, old_name: Seq<char>, new_name: Seq<char>) -> Result<HostMap, HopErrorView> {
    if m.contains_key(old_name) {
        Ok(m.remove(old_name).insert(new_name, m[old_name].with_name(new_name)))
    } else {
        Err(HopErrorView::HostNotFound(old_name))
    }
}

/// The hosts with a copy of the one under `source` saved under `dest`, named `dest`.
pub open spec fn copied(m: HostMap, source: Seq<char>, dest: Seq<char>) -> Result<HostMap, HopErrorView> {
    if m.contains_key(source) {
        Ok(m.insert(dest, m[source].with_name(dest)))
    } else {
        Err(HopErrorView::HostNotFound(source))
    }
}

/// The hosts with the given fields of the one under `name` replaced.
pub open spec fn edited(
    m: HostMap,
    name: Seq<char>,
    hostname: Option<Seq<char>>,
    user: Option<Seq<char>>,
    port: Option<u16>,
    identity: Option<Seq<char>>,
) -> Result<HostMap, HopErrorView> {
    if m.contains_key(name) {
        Ok(m.insert(name, m[name].with_edits(hostname, user, port, identity)))
    } else {
        Err(HopErrorView::HostNotFound(name))
    }
}

/// The hosts with `tag` given to the one under `name`.
pub open spec fn tagged(m: HostMap, name: Seq<char>, tag: Seq<char>) -> Result<HostMap, HopErrorView> {
    if m.contains_key(name) {
        Ok(m.insert(name, m[name].with_tag(tag)))
    } else {
        Err(HopErrorView::HostNotFound(name))
    }
}

/// The hosts with the one under `name` placed in `group`.
pub open spec fn grouped(m: HostMap, name: Seq<char>, group: Seq<char>) -> Result<HostMap, HopErrorView> {
    if m.contains_key(name) {
        Ok(m.insert(name, m[name].with_group(group)))
    } else {
        Err(HopErrorView::HostNotFound(name))
    }
}

/// A change that returns nothing went as `expected` says: on success the hosts
/// are the expected ones; on failure the error is the expected one and nothing changed.
pub open spec fn applied(
    before: HostMap,
    after: HostMap,
    r: Result<(), HopError>,
    expected: Result<HostMap, HopErrorView>,
) -> bool {
    match expected {
        Ok(m) => r is Ok && after == m,
        Err(e) => r matches Err(x) && x@ == e && after == before,
    }
}

/// `out` holds each host of `m` that `keep` accepts once, in the order of `ks`, their keys.
pub open spec fn lists_by(
    out: Seq<HostView>,
    m: HostMap,
    keep: spec_fn(HostView) -> bool,
    ks: Seq<Seq<char>>,
) -> bool {
    &&& ks.len() == out.len()
    &&& ks.no_duplicates()
    &&& forall|i: int| 0 <= i < ks.len() ==> {
        &&& m.contains_key(#[trigger] ks[i])
        &&& keep(m[ks[i]])
        &&& out[i] == m[ks[i]]
    }
    &&& forall|k: Seq<char>| m.contains_key(k) && keep(m[k]) ==> #[trigger] ks.contains(k)
}

/// `out` holds each host of `m` that `keep` accepts, once each, in some order.
pub open spec fn lists(out: Seq<HostView>, m: HostMap, keep: spec_fn(HostView) -> bool) -> bool {
    exists|ks: Seq<Seq<char>>| lists_by(out, m, keep, ks)
}

/// The hosts come in the order of their names.
pub open spec fn sorted_by_name(s: Seq<HostView>) -> bool {
    forall|a: int, b: int| 0 <= a < b < s.len() ==> text_le(#[trigger] s[a].name, #[trigger] s[b].name)
}

/// A host belongs to the listing asked for: every host when no group is named,
/// else the hosts of that group.
pub open spec fn in_listing(h: HostView, group: Option<Seq<char>>) -> bool {
    match group {
        None => true,
        Some(g) => h.group == Some(g),
    }
}

/// The text of an optional group, empty for none.
pub open spec fn group_text(g: Option<Seq<char>>) -> Seq<char> {
    match g {
        Some(t) => t,
        None => Seq::empty(),
    }
}

/// A host matches a lower-cased query: the query stands in the lower-cased name,
/// address, one of the tags or the group (an empty text where it has none).
pub open spec fn matches_query(h: HostView, q: Seq<char>) -> bool {
    ||| has_text(lowercase(h.name), q)
    ||| has_text(lowercase(h.hostname), q)
    ||| exists|i: int| 0 <= i < h.tags.len() && has_text(lowercase(#[trigger] h.tags[i]), q)
    ||| has_text(lowercase(group_text(h.group)), q)
}

/// Some host of `m` is in group `g`.
pub open spec fn group_used(m: HostMap, g: Seq<char>) -> bool {
    exists|k: Seq<char>| m.contains_key(k) && #[trigger] m[k].group == Some(g)
}

/// All saved hosts, keyed by name. Each key occurs once.
#[derive(Debug)]
pub struct Config {
    keys: Vec<String>,
    hosts: Vec<Host>,
}

impl Config {
    /// The keys, in storage order.
    pub closed spec fn key_texts(&self) -> Seq<Seq<char>> {
        texts(self.keys@)
    }

    /// The hosts, in storage order.
    pub closed spec fn entries(&self) -> Seq<HostView> {
        host_views(self.hosts@)
    }

    /// The stored form is consistent: one host per key, and no key twice.
    pub closed spec fn wf(&self) -> bool {
        &&& self.keys.len() == self.hosts.len()
        &&& self.key_texts().no_duplicates()
    }
}

impl Default for Config {
    /// A configuration with no hosts.
    fn default() -> (c: Config)
        ensures
            c.wf(),
            c@ == HostMap::empty(),
    {
        Config::new()
    }
}

impl View for Config {
    type V = HostMap;

    closed spec fn view(&self) -> HostMap {
        Map::new(
            |k: Seq<char>| self.key_texts().contains(k),
            |k: Seq<char>| self.entries()[self.key_texts().index_of(k)],
        )
    }
}

impl Config {
    proof fn lemma_view_at(&self, i: int)
        requires
            self.wf(),
            0 <= i < self.keys.len(),
        ensures
            self@.contains_key(self.key_texts()[i]),
            self@[self.key_texts()[i]] == self.entries()[i],
    {
        let kt = self.key_texts();
        assert(kt.contains(kt[i]));
        let j = kt.index_of(kt[i]);
        assert(kt[j] == kt[i]);
    }

    proof fn lemma_view_dom(&self)
        requires
            self.wf(),
        ensures
            self@.dom() =~= self.key_texts().to_set(),
            self@.dom().finite(),
            self@.len() == self.keys.len(),
            forall|i: int| 0 <= i < self.keys.len() ==>
                #[trigger] self@[self.key_texts()[i]] == self.entries()[i],
    {
        assert forall|i: int| 0 <= i < self.keys.len() implies
            #[trigger] self@[self.key_texts()[i]] == self.entries()[i] by {
            self.lemma_view_at(i);
        }
        self.key_texts().unique_seq_to_set();
    }

    proof fn lemma_push(old: &Config, new: &Config, k: Seq<char>, h: HostView)
        requires
            old.wf(),
            !old@.contains_key(k),
            new.key_texts() == old.key_texts().push(k),
            new.entries() == old.entries().push(h),
            new.keys.len() == new.hosts.len(),
        ensures
            new.wf(),
            new@ == old@.insert(k, h),
    {
        let ko = old.key_texts();
        let kn = new.key_texts();
        old.lemma_view_dom();
        assert(!ko.contains(k)) by {
            if ko.contains(k) {
                let j = ko.index_of(k);
                assert(ko.to_set().contains(k));
            }
        }
        assert(kn.no_duplicates()) by {
            assert forall|i: int, j: int| 0 <= i < kn.len() && 0 <= j < kn.len() && i != j
                implies kn[i] != kn[j] by {
                if j == ko.len() {
                    assert(ko[i] == kn[i]);
                } else if i == ko.len() {
                    assert(ko[j] == kn[j]);
                } else {
                    assert(ko[i] == kn[i] && ko[j] == kn[j]);
                }
            }
        }
        new.lemma_view_dom();
        let target = old@.insert(k, h);
        assert(new@.dom() =~= target.dom()) by {
            assert forall|x: Seq<char>| new@.dom().contains(x) <==> target.dom().contains(x) by {
                if kn.to_set().contains(x) {
                    let i = kn.index_of(x);
                    if i < ko.len() {
                        assert(ko[i] == x);
                        assert(ko.to_set().contains(x));
                    }
                }
                if ko.to_set().contains(x) {
                    let i = ko.index_of(x);
                    assert(kn[i] == x);
                }
                if x == k {
                    assert(kn[ko.len() as int] == x);
                }
            }
        }
        assert forall|x: Seq<char>| new@.contains_key(x) implies new@[x] == target[x] by {
            assert(kn.to_set().contains(x));
            let i = kn.index_of(x);
            assert(new@[kn[i]] == new.entries()[i]);
            if i < ko.len() {
                assert(ko[i] == x);
                assert(old@[ko[i]] == old.entries()[i]);
            }
        }
        assert(new@ =~= target);
    }

    proof fn lemma_set(old: &Config, new: &Config, i: int, h: HostView)
        requires
            old.wf(),
            0 <= i < old.keys.len(),
            new.key_texts() == old.key_texts(),
            new.entries() == old.entries().update(i, h),
            new.keys.len() == new.hosts.len(),
        ensures
            new.wf(),
            new@ == old@.insert(old.key_texts()[i], h),
    {
        let kt = old.key_texts();
        old.lemma_view_dom();
        new.lemma_view_dom();
        let target = old@.insert(kt[i], h);
        assert(new@.dom() =~= target.dom());
        assert forall|x: Seq<char>| new@.contains_key(x) implies new@[x] == target[x] by {
            assert(kt.to_set().contains(x));
            let j = kt.index_of(x);
            assert(new@[kt[j]] == new.entries()[j]);
            assert(old@[kt[j]] == old.entries()[j]);
        }
        assert(new@ =~= target);
    }

    proof fn lemma_remove(old: &Config, new: &Config, i: int)
        requires
            old.wf(),
            0 <= i < old.keys.len(),
            new.key_texts() == old.key_texts().remove(i),
            new.entries() == old.entries().remove(i),
            new.keys.len() == new.hosts.len(),
        ensures
            new.wf(),
            new@ == old@.remove(old.key_texts()[i]),
    {
        let ko = old.key_texts();
        let kn = new.key_texts();
        old.lemma_view_dom();
        assert(kn.no_duplicates()) by {
            assert forall|a: int, b: int| 0 <= a < kn.len() && 0 <= b < kn.len() && a != b
                implies kn[a] != kn[b] by {
                let a2 = if a < i { a } else { a + 1 };
                let b2 = if b < i { b } else { b + 1 };
                assert(kn[a] == ko[a2] && kn[b] == ko[b2]);
            }
        }
        new.lemma_view_dom();
        let target = old@.remove(ko[i]);
        assert(new@.dom() =~= target.dom()) by {
            assert forall|x: Seq<char>| new@.dom().contains(x) <==> target.dom().contains(x) by {
                if kn.to_set().contains(x) {
                    let a = kn.index_of(x);
                    let a2 = if a < i { a } else { a + 1 };
                    assert(ko[a2] == x);
                    assert(ko.to_set().contains(x));
                }
                if ko.to_set().contains(x) && x != ko[i] {
                    let a = ko.index_of(x);
                    if a < i {
                        assert(kn[a] == x);
                    } else {
                        assert(kn[a - 1] == x);
                    }
                }
            }
        }
        assert forall|x: Seq<char>| new@.contains_key(x) implies new@[x] == target[x] by {
            assert(kn.to_set().contains(x));
            let a = kn.index_of(x);
            let a2 = if a < i { a } else { a + 1 };
            assert(new@[kn[a]] == new.entries()[a]);
            assert(old@[ko[a2]] == old.entries()[a2]);
        }
        assert(new@ =~= target);
    }

    /// Selection state while walking the stored hosts: `ks` and `out` hold, for
    /// the first `j` stored hosts, those that `keep` accepts, once each.
    spec fn picked(
        &self,
        ks: Seq<Seq<char>>,
        out: Seq<HostView>,
        j: int,
        keep: spec_fn(HostView) -> bool,
    ) -> bool {
        &&& 0 <= j <= self.keys.len()
        &&& ks.len() == out.len()
        &&& ks.no_duplicates()
        &&& forall|i: int| 0 <= i < ks.len() ==> self.key_texts().take(j).contains(#[trigger] ks[i])
        &&& forall|i: int| 0 <= i < ks.len() ==> {
            &&& #[trigger] out[i] == self@[ks[i]]
            &&& keep(out[i])
        }
        &&& forall|t: int| 0 <= t < j && keep(#[trigger] self.entries()[t]) ==> ks.contains(self.key_texts()[t])
    }

    proof fn lemma_pick_skip(&self, ks: Seq<Seq<char>>, out: Seq<HostView>, j: int, keep: spec_fn(HostView) -> bool)
        requires
            self.wf(),
            self.picked(ks, out, j, keep),
            j < self.keys.len(),
            !keep(self.entries()[j]),
        ensures
            self.picked(ks, out, j + 1, keep),
    {
        let kt = self.key_texts();
        assert forall|i: int| 0 <= i < ks.len() implies kt.take(j + 1).contains(#[trigger] ks[i]) by {
            assert(kt.take(j).contains(ks[i]));
            let t = choose|t: int| 0 <= t < j && kt.take(j)[t] == ks[i];
            assert(kt.take(j + 1)[t] == ks[i]);
        }
    }

    proof fn lemma_pick_take(
        &self,
        ks: Seq<Seq<char>>,
        out: Seq<HostView>,
        j: int,
        keep: spec_fn(HostView) -> bool,
        p: int,
    )
        requires
            self.wf(),
            self.picked(ks, out, j, keep),
            j < self.keys.len(),
            keep(self.entries()[j]),
            0 <= p <= ks.len(),
        ensures
            self.picked(
                ks.insert(p, self.key_texts()[j]),
                out.insert(p, self.entries()[j]),
                j + 1,
                keep,
            ),
    {
        let kt = self.key_texts();
        let k = kt[j];
        let ks2 = ks.insert(p, k);
        let out2 = out.insert(p, self.entries()[j]);
        self.lemma_view_dom();
        assert(!ks.contains(k)) by {
            if ks.contains(k) {
                let i = choose|i: int| 0 <= i < ks.len() && ks[i] == k;
                assert(kt.take(j).contains(ks[i]));
                let t = choose|t: int| 0 <= t < j && kt.take(j)[t] == ks[i];
                assert(kt[t] == kt[j]);
            }
        }
        assert(ks2.no_duplicates()) by {
            assert forall|a: int, b: int| 0 <= a < ks2.len() && 0 <= b < ks2.len() && a != b
                implies ks2[a] != ks2[b] by {
                if a == p {
                    let b2 = if b < p { b } else { b - 1 };
                    assert(ks2[b] == ks[b2]);
                } else if b == p {
                    let a2 = if a < p { a } else { a - 1 };
                    assert(ks2[a] == ks[a2]);
                } else {
                    let a2 = if a < p { a } else { a - 1 };
                    let b2 = if b < p { b } else { b - 1 };
                    assert(ks2[a] == ks[a2] && ks2[b] == ks[b2]);
                }
            }
        }
        assert forall|i: int| 0 <= i < ks2.len() implies kt.take(j + 1).contains(#[trigger] ks2[i]) by {
            if i == p {
                assert(kt.take(j + 1)[j] == ks2[i]);
            } else {
                let i2 = if i < p { i } else { i - 1 };
                assert(ks2[i] == ks[i2]);
                assert(kt.take(j).contains(ks[i2]));
                let t = choose|t: int| 0 <= t < j && kt.take(j)[t] == ks[i2];
                assert(kt.take(j + 1)[t] == ks2[i]);
            }
        }
        assert forall|i: int| 0 <= i < ks2.len() implies {
            &&& #[trigger] out2[i] == self@[ks2[i]]
            &&& keep(out2[i])
        } by {
            if i != p {
                let i2 = if i < p { i } else { i - 1 };
                assert(ks2[i] == ks[i2] && out2[i] == out[i2]);
            }
        }
        assert forall|t: int| 0 <= t < j + 1 && keep(#[trigger] self.entries()[t]) implies ks2.contains(kt[t]) by {
            if t == j {
                assert(ks2[p] == kt[t]);
            } else {
                assert(ks.contains(kt[t]));
                let i = choose|i: int| 0 <= i < ks.len() && ks[i] == kt[t];
                let i2 = if i < p { i } else { i + 1 };
                assert(ks2[i2] == kt[t]);
            }
        }
    }

    proof fn lemma_pick_done(&self, ks: Seq<Seq<char>>, out: Seq<HostView>, keep: spec_fn(HostView) -> bool)
        requires
            self.wf(),
            self.picked(ks, out, self.keys.len() as int, keep),
        ensures
            lists_by(out, self@, keep, ks),
            lists(out, self@, keep),
    {
        let kt = self.key_texts();
        self.lemma_view_dom();
        assert forall|i: int| 0 <= i < ks.len() implies {
            &&& self@.contains_key(#[trigger] ks[i])
            &&& keep(self@[ks[i]])
            &&& out[i] == self@[ks[i]]
        } by {
            let n = self.keys.len() as int;
            assert(kt.take(n).contains(ks[i]));
            let t = choose|t: int| 0 <= t < n && kt.take(n)[t] == ks[i];
            assert(kt[t] == ks[i]);
            assert(kt.to_set().contains(kt[t]));
            assert(out[i] == self@[ks[i]]);
        }
        assert forall|k: Seq<char>| self@.contains_key(k) && keep(self@[k]) implies #[trigger] ks.contains(k) by {
            assert(kt.to_set().contains(k));
            let t = kt.index_of(k);
            assert(self@[kt[t]] == self.entries()[t]);
        }
        assert(lists_by(out, self@, keep, ks));
    }

    /// A configuration holds finitely many hosts.
    pub proof fn lemma_hosts_finite(&self)
        requires
            self.wf(),
        ensures
            self@.dom().finite(),
    {
        self.lemma_view_dom();
    }

    /// A configuration with no hosts.
    pub fn new() -> (c: Config)
        ensures
            c.wf(),
            c@ == HostMap::empty(),
    {
        let c = Config { keys: Vec::new(), hosts: Vec::new() };
        proof {
            assert(c.key_texts() =~= Seq::<Seq<char>>::empty());
            assert(c@ =~= HostMap::empty());
        }
        c
    }

    /// The number of saved hosts.
    pub fn len(&self) -> (n: usize)
        requires
            self.wf(),
        ensures
            n == self@.len(),
    {
        proof { self.lemma_view_dom(); }
        self.keys.len()
    }

    /// Whether no host is saved.
    pub fn is_empty(&self) -> (b: bool)
        requires
            self.wf(),
        ensures
            b == (self@.len() == 0),
    {
        proof { self.lemma_view_dom(); }
        self.keys.len() == 0
    }

    /// Saves `host` under its name, unless a host of that name is saved already.
    pub fn add_host(&mut self, host: Host) -> (r: Result<(), HopError>)
        requires
            old(self).wf(),
        ensures
            final(self).wf(),
            match added(old(self)@, host@) {
                Ok(m) => r is Ok && final(self)@ == m,
                Err(e) => r matches Err(x) && x@ == e && final(self)@ == old(self)@,
            },
    {
        match self.find(host.name.as_str()) {
            Some(i) => {
                proof { self.lemma_view_at(i as int); }
                Err(HopError::HostExists(host.name))
            },
            None => {
                let ghost before = *self;
                let key = host.name.clone();
                let ghost hv = host@;
                self.keys.push(key);
                self.hosts.push(host);
                proof {
                    assert(self.key_texts() =~= before.key_texts().push(hv.name));
                    assert(self.entries() =~= before.entries().push(hv));
                    Config::lemma_push(&before, self, hv.name, hv);
                }
                Ok(())
            },
        }
    }

    /// The host saved under `name`.
    pub fn get_host(&self, name: &str) -> (r: Result<&Host, HopError>)
        requires
            self.wf(),
        ensures
            match lookup(self@, name@) {
                Ok(h) => r matches Ok(x) && x@ == h,
                Err(e) => r matches Err(x) && x@ == e,
            },
    {
        match self.find(name) {
            Some(i) => {
                proof { self.lemma_view_at(i as int); }
                Ok(&self.hosts[i])
            },
            None => Err(HopError::HostNotFound(String::from_str(name))),
        }
    }

    /// The host saved under `name`, to be changed in place.
    pub fn get_host_mut(&mut self, name: &str) -> (r: Result<&mut Host, HopError>)
        requires
            old(self).wf(),
        ensures
            final(self).wf(),
            match lookup(old(self)@, name@) {
                Ok(h) => r matches Ok(x) && (*x)@ == h
                    && final(self)@ == old(self)@.insert(name@, (*final(x))@),
                Err(e) => r matches Err(x) && x@ == e && final(self)@ == old(self)@,
            },
    {
        match self.find(name) {
            Some(i) => {
                proof { self.lemma_view_at(i as int); }
                Ok(&mut self.hosts[i])
            },
            None => Err(HopError::HostNotFound(String::from_str(name))),
        }
    }

    /// Takes out the host saved under `name`.
    pub fn remove_host(&mut self, name: &str) -> (r: Result<Host, HopError>)
        requires
            old(self).wf(),
        ensures
            final(self).wf(),
            match removed(old(self)@, name@) {
                Ok((m, h)) => r matches Ok(x) && x@ == h && final(self)@ == m,
                Err(e) => r matches Err(x) && x@ == e && final(self)@ == old(self)@,
            },
    {
        match self.find(name) {
            Some(i) => {
                let ghost before = *self;
                proof { self.lemma_view_at(i as int); }
                let _key = self.keys.remove(i);
                let h = self.hosts.remove(i);
                proof {
                    assert(self.key_texts() =~= before.key_texts().remove(i as int));
                    assert(self.entries() =~= before.entries().remove(i as int));
                    Config::lemma_remove(&before, self, i as int);
                }
                Ok(h)
            },
            None => Err(HopError::HostNotFound(String::from_str(name))),
        }
    }

    /// Saves `host` under `key`, replacing what was saved there.
    pub fn insert(&mut self, key: String, host: Host)
        requires
            old(self).wf(),
        ensures
            final(self).wf(),
            final(self)@ == old(self)@.insert(key@, host@),
    {
        let ghost before = *self;
        let ghost hv = host@;
        match self.find(key.as_str()) {
            Some(i) => {
                self.hosts.set(i, host);
                proof {
                    assert(self.entries() =~= before.entries().update(i as int, hv));
                    Config::lemma_set(&before, self, i as int, hv);
                }
            },
            None => {
                let ghost k = key@;
                self.keys.push(key);
                self.hosts.push(host);
                proof {
                    assert(self.key_texts() =~= before.key_texts().push(k));
                    assert(self.entries() =~= before.entries().push(hv));
                    Config::lemma_push(&before, self, k, hv);
                }
            },
        }
    }

    /// Moves the host under `old_name` to the key `new_name`, renaming it; a host
    /// already saved under `new_name` is replaced.
    pub fn rename_host(&mut self, old_name: &str, new_name: String) -> (r: Result<(), HopError>)
        requires
            old(self).wf(),
        ensures
            final(self).wf(),
            applied(old(self)@, final(self)@, r, renamed(old(self)@, old_name@, new_name@)),
    {
        match self.remove_host(old_name) {
            Ok(mut h) => {
                h.name = new_name.clone();
                self.insert(new_name, h);
                Ok(())
            },
            Err(e) => Err(e),
        }
    }

    /// Saves a copy of the host under `source` as `dest`; a host already saved
    /// under `dest` is replaced.
    pub fn copy_host(&mut self, source: &str, dest: String) -> (r: Result<(), HopError>)
        requires
            old(self).wf(),
        ensures
            final(self).wf(),
            applied(old(self)@, final(self)@, r, copied(old(self)@, source@, dest@)),
    {
        let mut h = match self.get_host(source) {
            Ok(h) => h.clone(),
            Err(e) => return Err(e),
        };
        h.name = dest.clone();
        self.insert(dest, h);
        Ok(())
    }

    /// Replaces the given fields of the host under `name`.
    pub fn edit_host(
        &mut self,
        name: &str,
        hostname: Option<String>,
        user: Option<String>,
        port: Option<u16>,
        identity: Option<String>,
    ) -> (r: Result<(), HopError>)
        requires
            old(self).wf(),
        ensures
            final(self).wf(),
            applied(
                old(self)@,
                final(self)@,
                r,
                edited(old(self)@, name@, opt_text(hostname), opt_text(user), port, opt_text(identity)),
            ),
    {
        match self.get_host_mut(name) {
            Ok(h) => {
                if let Some(v) = hostname {
                    h.hostname = v;
                }
                if let Some(v) = user {
                    h.user = v;
                }
                if let Some(v) = port {
                    h.port = v;
                }
                if let Some(v) = identity {
                    h.identity = Some(v);
                }
                Ok(())
            },
            Err(e) => Err(e),
        }
    }

    /// Gives `tag` to the host under `name`, unless it has that tag already.
    pub fn tag_host(&mut self, name: &str, tag: String) -> (r: Result<(), HopError>)
        requires
            old(self).wf(),
        ensures
            final(self).wf(),
            applied(old(self)@, final(self)@, r, tagged(old(self)@, name@, tag@)),
    {
        match self.get_host_mut(name) {
            Ok(h) => {
                if !has_tag(&h.tags, &tag) {
                    let ghost before_tags = h.tags@;
                    let ghost t = tag@;
                    h.tags.push(tag);
                    proof {
                        assert(texts(h.tags@) =~= texts(before_tags).push(t));
                    }
                }
                Ok(())
            },
            Err(e) => Err(e),
        }
    }

    /// Places the host under `name` in `group`.
    pub fn assign_group(&mut self, name: &str, group: String) -> (r: Result<(), HopError>)
        requires
            old(self).wf(),
        ensures
            final(self).wf(),
            applied(old(self)@, final(self)@, r, grouped(old(self)@, name@, group@)),
    {
        match self.get_host_mut(name) {
            Ok(h) => {
                h.group = Some(group);
                Ok(())
            },
            Err(e) => Err(e),
        }
    }

    /// The hosts of `group`, or all hosts when no group is named, sorted by name.
    pub fn list(&self, group: Option<&str>) -> (r: Vec<Host>)
        requires
            self.wf(),
        ensures
            lists(host_views(r@), self@, |h: HostView| in_listing(h, opt_str(group))),
            sorted_by_name(host_views(r@)),
    {
        let ghost keep = |h: HostView| in_listing(h, opt_str(group));
        let ghost mut ks: Seq<Seq<char>> = Seq::empty();
        let mut out: Vec<Host> = Vec::new();
        proof {
            assert(host_views(out@) =~= Seq::<HostView>::empty());
        }
        let mut j: usize = 0;
        while j < self.hosts.len()
            invariant
                self.wf(),
                j <= self.hosts.len(),
                keep == (|h: HostView| in_listing(h, opt_str(group))),
                self.picked(ks, host_views(out@), j as int, keep),
                sorted_by_name(host_views(out@)),
            decreases self.hosts.len() - j,
        {
            let h = &self.hosts[j];
            let wanted = match group {
                None => true,
                Some(g) => match &h.group {
                    Some(hg) => same_text(hg.as_str(), g),
                    None => false,
                },
            };
            if wanted {
                let mut p: usize = 0;
                while p < out.len() && text_le_exec(out[p].name.as_str(), h.name.as_str())
                    invariant
                        p <= out.len(),
                        forall|a: int| 0 <= a < p ==> text_le(#[trigger] host_views(out@)[a].name, h.name@),
                    decreases out.len() - p,
                {
                    p = p + 1;
                }
                let ghost old_out = host_views(out@);
                let c = h.clone();
                out.insert(p, c);
                proof {
                    let x = self.entries()[j as int];
                    assert(host_views(out@) =~= old_out.insert(p as int, x));
                    self.lemma_pick_take(ks, old_out, j as int, keep, p as int);
                    ks = ks.insert(p as int, self.key_texts()[j as int]);
                    let nv = host_views(out@);
                    assert forall|a: int, b: int| 0 <= a < b < nv.len() implies
                        text_le(#[trigger] nv[a].name, #[trigger] nv[b].name) by {
                        if b == p {
                            assert(nv[a] == old_out[a]);
                        } else if a == p {
                            assert(nv[b] == old_out[b - 1]);
                            if p < old_out.len() {
                                lemma_text_le_total(old_out[p as int].name, x.name);
                                if b - 1 > p {
                                    lemma_text_le_trans(x.name, old_out[p as int].name, old_out[b - 1].name);
                                }
                            }
                        } else {
                            let a2 = if a < p { a } else { a - 1 };
                            let b2 = if b < p { b } else { b - 1 };
                            assert(nv[a] == old_out[a2] && nv[b] == old_out[b2]);
                        }
                    }
                }
            } else {
                proof { self.lemma_pick_skip(ks, host_views(out@), j as int, keep); }
            }
            j = j + 1;
        }
        proof { self.lemma_pick_done(ks, host_views(out@), keep); }
        out
    }

    /// The hosts that match `query`, compared in lower case, in storage order.
    pub fn search(&self, query: &str) -> (r: Vec<Host>)
        requires
            self.wf(),
        ensures
            lists(host_views(r@), self@, |h: HostView| matches_query(h, lowercase(query@))),
    {
        let q = to_lowercase(query);
        let ghost keep = |h: HostView| matches_query(h, lowercase(query@));
        let ghost mut ks: Seq<Seq<char>> = Seq::empty();
        let mut out: Vec<Host> = Vec::new();
        proof {
            assert(host_views(out@) =~= Seq::<HostView>::empty());
        }
        let mut j: usize = 0;
        while j < self.hosts.len()
            invariant
                self.wf(),
                j <= self.hosts.len(),
                q@ == lowercase(query@),
                keep == (|h: HostView| matches_query(h, lowercase(query@))),
                self.picked(ks, host_views(out@), j as int, keep),
            decreases self.hosts.len() - j,
        {
            let h = &self.hosts[j];
            if host_matches(h, q.as_str()) {
                let ghost old_out = host_views(out@);
                let n = out.len();
                out.push(h.clone());
                proof {
                    assert(host_views(out@) =~= old_out.insert(n as int, self.entries()[j as int]));
                    self.lemma_pick_take(ks, old_out, j as int, keep, n as int);
                    ks = ks.insert(n as int, self.key_texts()[j as int]);
                }
            } else {
                proof { self.lemma_pick_skip(ks, host_views(out@), j as int, keep); }
            }
            j = j + 1;
        }
        proof { self.lemma_pick_done(ks, host_views(out@), keep); }
        out
    }

    /// The groups that hosts are placed in, each once.
    pub fn groups(&self) -> (r: Vec<String>)
        requires
            self.wf(),
        ensures
            texts(r@).no_duplicates(),
            forall|g: Seq<char>| texts(r@).contains(g) <==> group_used(self@, g),
    {
        let mut out: Vec<String> = Vec::new();
        let mut j: usize = 0;
        while j < self.hosts.len()
            invariant
                self.wf(),
                j <= self.hosts.len(),
                texts(out@).no_duplicates(),
                forall|g: Seq<char>| texts(out@).contains(g) <==>
                    exists|t: int| 0 <= t < j && #[trigger] self.entries()[t].group == Some(g),
            decreases self.hosts.len() - j,
        {
            let ghost before = texts(out@);
            let ghost gj = self.entries()[j as int].group;
            if let Some(g) = &self.hosts[j].group {
                if !has_tag(&out, g) {
                    out.push(g.clone());
                    proof {
                        assert(texts(out@) =~= before.push(g@));
                    }
                }
            }
            proof {
                let now = texts(out@);
                assert(forall|g: Seq<char>| now.contains(g) <==> (before.contains(g) || gj == Some(g))) by {
                    if gj is Some && !before.contains(gj->0) {
                        assert forall|g: Seq<char>| now.contains(g) <==> (before.contains(g) || gj == Some(g)) by {
                            if now.contains(g) {
                                let i = choose|i: int| 0 <= i < now.len() && now[i] == g;
                                if i < before.len() {
                                    assert(before[i] == g);
                                }
                            }
                            if before.contains(g) {
                                let i = choose|i: int| 0 <= i < before.len() && before[i] == g;
                                assert(now[i] == g);
                            }
                            if gj == Some(g) {
                                assert(now[before.len() as int] == g);
                            }
                        }
                    }
                }
                assert forall|g: Seq<char>| now.contains(g) <==>
                    exists|t: int| 0 <= t < j + 1 && #[trigger] self.entries()[t].group == Some(g) by {
                    if exists|t: int| 0 <= t < j + 1 && #[trigger] self.entries()[t].group == Some(g) {
                        let t = choose|t: int| 0 <= t < j + 1 && #[trigger] self.entries()[t].group == Some(g);
                        if t < j {
                            assert(exists|t: int| 0 <= t < j && #[trigger] self.entries()[t].group == Some(g));
                        }
                    }
                }
            }
            j = j + 1;
        }
        proof {
            self.lemma_view_dom();
            let kt = self.key_texts();
            assert forall|g: Seq<char>| texts(out@).contains(g) <==> group_used(self@, g) by {
                if texts(out@).contains(g) {
                    let t = choose|t: int| 0 <= t < self.hosts.len() && #[trigger] self.entries()[t].group == Some(g);
                    assert(self@[kt[t]] == self.entries()[t]);
                    assert(kt.to_set().contains(kt[t]));
                }
                if group_used(self@, g) {
                    let k = choose|k: Seq<char>| self@.contains_key(k) && #[trigger] self@[k].group == Some(g);
                    assert(kt.to_set().contains(k));
                    let t = kt.index_of(k);
                    assert(self@[kt[t]] == self.entries()[t]);
                }
            }
        }
        out
    }

    /// Saves every host of `other` under its key, replacing what was saved there;
    /// gives the number of hosts that `other` holds.
    pub fn import(&mut self, other: &Config) -> (n: usize)
        requires
            old(self).wf(),
            other.wf(),
        ensures
            final(self).wf(),
            final(self)@ == old(self)@.union_prefer_right(other@),
            n == other@.len(),
    {
        let count = other.len();
        let ghost kt = other.key_texts();
        let mut i: usize = 0;
        proof {
            other.lemma_view_dom();
            assert(self@ =~= old(self)@.union_prefer_right(other@.restrict(kt.take(0).to_set())));
        }
        while i < other.keys.len()
            invariant
                self.wf(),
                other.wf(),
                kt == other.key_texts(),
                i <= other.keys.len(),
                self@ == old(self)@.union_prefer_right(other@.restrict(kt.take(i as int).to_set())),
            decreases other.keys.len() - i,
        {
            let ghost prev = self@;
            self.insert(other.keys[i].clone(), other.hosts[i].clone());
            proof {
                other.lemma_view_dom();
                let k = kt[i as int];
                assert(kt.take(i + 1) =~= kt.take(i as int).push(k));
                assert(kt.take(i + 1).to_set() =~= kt.take(i as int).to_set().insert(k)) by {
                    let a = kt.take(i as int);
                    assert forall|x: Seq<char>| kt.take(i + 1).to_set().contains(x) <==> a.to_set().insert(k).contains(x) by {
                        if a.contains(x) {
                            let t = choose|t: int| 0 <= t < a.len() && a[t] == x;
                            assert(kt.take(i + 1)[t] == x);
                        }
                        let b = kt.take(i + 1);
                        if b.contains(x) && x != k {
                            let t = choose|t: int| 0 <= t < b.len() && b[t] == x;
                            assert(a[t] == x);
                        }
                        if x == k {
                            assert(kt.take(i + 1)[i as int] == x);
                        }
                    }
                }
                assert(other@[k] == other.entries()[i as int]);
                assert(self@ =~= old(self)@.union_prefer_right(other@.restrict(kt.take(i + 1).to_set())));
            }
            i = i + 1;
        }
        proof {
            other.lemma_view_dom();
            assert(kt.take(other.keys.len() as int) =~= kt);
            assert(other@.restrict(kt.to_set()) =~= other@);
        }
        count
    }

    /// Every saved host with its key, each key once.
    pub fn to_pairs(&self) -> (r: Vec<(String, Host)>)
        requires
            self.wf(),
        ensures
            r.len() == self@.len(),
            r@.map_values(|e: (String, Host)| e.0@).no_duplicates(),
            forall|i: int| 0 <= i < r.len() ==> {
                &&& self@.contains_key(#[trigger] r@[i].0@)
                &&& self@[r@[i].0@] == r@[i].1@
            },
    {
        let mut out: Vec<(String, Host)> = Vec::new();
        let mut i: usize = 0;
        while i < self.keys.len()
            invariant
                self.wf(),
                i <= self.keys.len(),
                out.len() == i,
                forall|t: int| 0 <= t < i ==> {
                    &&& #[trigger] out@[t].0@ == self.key_texts()[t]
                    &&& out@[t].1@ == self.entries()[t]
                },
            decreases self.keys.len() - i,
        {
            out.push((self.keys[i].clone(), self.hosts[i].clone()));
            i = i + 1;
        }
        proof {
            self.lemma_view_dom();
            let kt = self.key_texts();
            assert(out@.map_values(|e: (String, Host)| e.0@) =~= kt);
            assert forall|t: int| 0 <= t < out.len() implies {
                &&& self@.contains_key(#[trigger] out@[t].0@)
                &&& self@[out@[t].0@] == out@[t].1@
            } by {
                assert(out@[t].0@ == kt[t]);
                assert(kt.to_set().contains(kt[t]));
            }
        }
        out
    }

    /// Where `name` is stored, if it is.
    fn find(&self, name: &str) -> (r: Option<usize>)
        requires
            self.wf(),
        ensures
            match r {
                Some(i) => i < self.keys.len() && self.key_texts()[i as int] == name@,
                None => !self@.contains_key(name@),
            },
    {
        let target = String::from_str(name);
        let mut i: usize = 0;
        while i < self.keys.len()
            invariant
                self.wf(),
                target@ == name@,
                i <= self.keys.len(),
                forall|j: int| 0 <= j < i ==> self.key_texts()[j] != name@,
            decreases self.keys.len() - i,
        {
            if self.keys[i] == target {
                return Some(i);
            }
            i = i + 1;
        }
        proof {
            self.lemma_view_dom();
            if self@.contains_key(name@) {
                assert(self.key_texts().to_set().contains(name@));
                assert(self.key_texts().contains(name@));
                let j = self.key_texts().index_of(name@);
                assert(self.key_texts()[j] == name@);
            }
        }
        None
    }
}

} // verus!
