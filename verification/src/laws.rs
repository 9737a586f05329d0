use vstd::prelude::*;
use crate::config::{
    HostMap, added, in_listing, lists_by, copied, edited, group_used, grouped, lists, lookup, matches_query,
    removed, renamed, tagged,
};
use crate::error::HopErrorView;
use crate::host::{HostView, tags_marker};
use crate::ports::{digit_value, digits_part, digits_value, fits_through, is_digit, one_colon_at, port_parse, tunnel_ports};
use crate::ssh::tunnel_command;
use crate::text::{decimal, digit_char, has_text, joined, lowercase, occurs_at};

verus! {

/// A host that was added can be looked up under its name, and is the host that was added.
pub proof fn law_lookup_after_add(m: HostMap, h: HostView)
    requires
        !m.contains_key(h.name),
    ensures
        added(m, h) is Ok,
        lookup(added(m, h)->Ok_0, h.name) == Ok::<HostView, HopErrorView>(h),
{
}

/// Adding a host under a name that is taken is refused, and names the host.
pub proof fn law_add_refused_when_taken(m: HostMap, h: HostView)
    requires
        m.contains_key(h.name),
    ensures
        added(m, h) == Err::<HostMap, HopErrorView>(HopErrorView::HostExists(h.name)),
{
}

/// Removing a host that was just added gives back the hosts as they were, and the host.
pub proof fn law_remove_undoes_add(m: HostMap, h: HostView)
    requires
        !m.contains_key(h.name),
    ensures
        removed(added(m, h)->Ok_0, h.name) == Ok::<(HostMap, HostView), HopErrorView>((m, h)),
{
    assert(m.insert(h.name, h).remove(h.name) =~= m);
}

/// Adding back a host that was just removed (saved under its own name) restores the hosts.
pub proof fn law_add_undoes_remove(m: HostMap, name: Seq<char>)
    requires
        m.contains_key(name),
        m[name].name == name,
    ensures
        added(removed(m, name)->Ok_0.0, m[name]) == Ok::<HostMap, HopErrorView>(m),
{
    assert(m.remove(name).insert(name, m[name]) =~= m);
}

/// Renaming a host to a free name and back again restores the hosts, where the host
/// was saved under its own name.
pub proof fn law_rename_back(m: HostMap, a: Seq<char>, b: Seq<char>)
    requires
        m.contains_key(a),
        !m.contains_key(b),
        a != b,
        m[a].name == a,
    ensures
        renamed(m, a, b) is Ok,
        renamed(renamed(m, a, b)->Ok_0, b, a) == Ok::<HostMap, HopErrorView>(m),
{
    let m1 = m.remove(a).insert(b, m[a].with_name(b));
    assert(m1[b].with_name(a) == m[a]);
    assert(m1.remove(b).insert(a, m1[b].with_name(a)) =~= m);
}

/// A lookup of a missing host fails and names it.
pub proof fn law_lookup_missing(m: HostMap, name: Seq<char>)
    requires
        !m.contains_key(name),
    ensures
        lookup(m, name) == Err::<HostView, HopErrorView>(HopErrorView::HostNotFound(name)),
        removed(m, name) == Err::<(HostMap, HostView), HopErrorView>(HopErrorView::HostNotFound(name)),
        renamed(m, name, name) == Err::<HostMap, HopErrorView>(HopErrorView::HostNotFound(name)),
{
}

/// Copying a host leaves the source and every other host as it was, and the copy
/// differs from the source in its name alone.
pub proof fn law_copy_keeps_source(m: HostMap, source: Seq<char>, dest: Seq<char>)
    requires
        m.contains_key(source),
        source != dest,
    ensures
        copied(m, source, dest) is Ok,
        copied(m, source, dest)->Ok_0.remove(dest) == m.remove(dest),
        copied(m, source, dest)->Ok_0[dest] == m[source].with_name(dest),
        copied(m, source, dest)->Ok_0[source] == m[source],
{
    assert(m.insert(dest, m[source].with_name(dest)).remove(dest) =~= m.remove(dest));
}

/// Giving a host the same tag twice is the same as giving it once.
pub proof fn law_tag_idempotent(m: HostMap, name: Seq<char>, tag: Seq<char>)
    ensures
        tagged(m, name, tag) matches Ok(m1) ==> tagged(m1, name, tag) == tagged(m, name, tag),
{
    if m.contains_key(name) {
        let h = m[name];
        let h1 = h.with_tag(tag);
        assert(h1.tags.contains(tag)) by {
            if !h.tags.contains(tag) {
                assert(h1.tags[h.tags.len() as int] == tag);
            }
        }
        assert(h1.with_tag(tag) == h1);
        assert(m.insert(name, h1).insert(name, h1) =~= m.insert(name, h1));
    }
}

/// After tagging, the host has the tag, and a tag list without repeats stays without repeats.
pub proof fn law_tag_present(m: HostMap, name: Seq<char>, tag: Seq<char>)
    requires
        m.contains_key(name),
    ensures
        tagged(m, name, tag)->Ok_0[name].tags.contains(tag),
        m[name].tags.no_duplicates() ==> tagged(m, name, tag)->Ok_0[name].tags.no_duplicates(),
{
    let h = m[name];
    let h1 = h.with_tag(tag);
    if !h.tags.contains(tag) {
        assert(h1.tags[h.tags.len() as int] == tag);
        assert(h.tags.no_duplicates() ==> h1.tags.no_duplicates()) by {
            if h.tags.no_duplicates() {
                assert forall|i: int, j: int| 0 <= i < h1.tags.len() && 0 <= j < h1.tags.len() && i != j
                    implies h1.tags[i] != h1.tags[j] by {
                    if i == h.tags.len() {
                        assert(h1.tags[j] == h.tags[j]);
                    } else if j == h.tags.len() {
                        assert(h1.tags[i] == h.tags[i]);
                    } else {
                        assert(h1.tags[i] == h.tags[i] && h1.tags[j] == h.tags[j]);
                    }
                }
            }
        }
    }
}

/// An edit that changes no field leaves the hosts as they were.
pub proof fn law_empty_edit(m: HostMap, name: Seq<char>)
    requires
        m.contains_key(name),
    ensures
        edited(m, name, None, None, None, None) == Ok::<HostMap, HopErrorView>(m),
{
    assert(m[name].with_edits(None, None, None, None) == m[name]);
    assert(m.insert(name, m[name]) =~= m);
}

/// A group that a host was placed in is among the groups in use.
pub proof fn law_group_in_use(m: HostMap, name: Seq<char>, group: Seq<char>)
    requires
        m.contains_key(name),
    ensures
        group_used(grouped(m, name, group)->Ok_0, group),
{
    let m1 = grouped(m, name, group)->Ok_0;
    assert(m1.contains_key(name) && m1[name].group == Some(group));
}

/// Importing the same hosts a second time changes nothing.
pub proof fn law_import_twice(m: HostMap, other: HostMap)
    ensures
        m.union_prefer_right(other).union_prefer_right(other) == m.union_prefer_right(other),
{
    assert(m.union_prefer_right(other).union_prefer_right(other) =~= m.union_prefer_right(other));
}

/// A listing of all groups shows each saved host once: as many hosts as are saved.
pub proof fn law_full_listing_length(out: Seq<HostView>, m: HostMap)
    requires
        m.dom().finite(),
        lists(out, m, |h: HostView| in_listing(h, None)),
    ensures
        out.len() == m.len(),
{
    let keep = |h: HostView| in_listing(h, None);
    assert(lists(out, m, keep));
    let ks = choose|ks: Seq<Seq<char>>| #[trigger] lists_by(out, m, keep, ks);
    assert(ks.to_set() =~= m.dom()) by {
        assert forall|k: Seq<char>| ks.to_set().contains(k) <==> m.dom().contains(k) by {
            if ks.contains(k) {
                let i = choose|i: int| 0 <= i < ks.len() && ks[i] == k;
                assert(m.contains_key(ks[i]));
            }
            if m.contains_key(k) {
                assert(ks.contains(k));
            }
        }
    }
    ks.unique_seq_to_set();
}

proof fn lemma_decimal_digits(n: nat)
    ensures
        decimal(n).len() > 0,
        forall|j: int| 0 <= j < decimal(n).len() ==> is_digit(#[trigger] decimal(n)[j]),
        digits_value(decimal(n)) == n,
    decreases n,
{
    if n >= 10 {
        lemma_decimal_digits(n / 10);
        let d = decimal(n);
        assert(d.drop_last() =~= decimal(n / 10));
        assert(digit_value(digit_char(n % 10)) == n % 10);
        assert(d.last() == digit_char(n % 10));
        assert((n / 10) * 10 + n % 10 == n) by (nonlinear_arith);
        assert(digits_value(d) == digits_value(d.drop_last()) * 10 + digit_value(d.last()));
        assert forall|j: int| 0 <= j < d.len() implies is_digit(#[trigger] d[j]) by {
            if j < d.len() - 1 {
                assert(d[j] == decimal(n / 10)[j]);
            }
        }
    } else {
        assert(decimal(n).drop_last() =~= Seq::<char>::empty());
        assert(digit_value(digit_char(n)) == n);
        let d = decimal(n);
        assert(digits_value(d.drop_last()) == 0);
        assert(digits_value(d) == digits_value(d.drop_last()) * 10 + digit_value(d.last()));
    }
}

/// Reading back a port number written in decimal gives the same number.
pub proof fn law_port_round_trip(n: u16)
    ensures
        port_parse(decimal(n as nat)) == Ok::<u16, crate::ports::PortsError>(n),
{
    let d = decimal(n as nat);
    lemma_decimal_digits(n as nat);
    assert(d[0] != '+') by {
        assert(is_digit(d[0]));
    }
    assert(digits_part(d) == d);
    assert(d != seq!['+']) by {
        if d == seq!['+'] {
            assert(d[0] == '+');
        }
    }
    assert(d.take(d.len() as int) =~= d);
    assert(fits_through(d, d.len() as int));
}

/// Reading back `local:remote`, each written in decimal, gives the same pair of ports.
pub proof fn law_tunnel_round_trip(local: u16, remote: u16)
    ensures
        tunnel_ports(decimal(local as nat) + seq![':'] + decimal(remote as nat))
            == Ok::<(u16, u16), crate::ports::PortsError>((local, remote)),
{
    let a = decimal(local as nat);
    let b = decimal(remote as nat);
    let s = a + seq![':'] + b;
    lemma_decimal_digits(local as nat);
    lemma_decimal_digits(remote as nat);
    let p = a.len() as int;
    assert forall|i: int| 0 <= i < s.len() && i != p implies #[trigger] s[i] != ':' by {
        if i < p {
            assert(s[i] == a[i]);
            assert(is_digit(a[i]));
        } else {
            assert(s[i] == b[i - p - 1]);
            assert(is_digit(b[i - p - 1]));
        }
    }
    assert(one_colon_at(s, p));
    let q = choose|q: int| one_colon_at(s, q);
    assert(q == p);
    assert(s.take(p) =~= a);
    assert(s.skip(p + 1) =~= b);
    law_port_round_trip(local);
    law_port_round_trip(remote);
}


proof fn lemma_listed(out: Seq<HostView>, m: HostMap, keep: spec_fn(HostView) -> bool, k: Seq<char>)
    requires
        lists(out, m, keep),
        m.contains_key(k),
        keep(m[k]),
    ensures
        out.contains(m[k]),
{
    let ks = choose|ks: Seq<Seq<char>>| #[trigger] lists_by(out, m, keep, ks);
    assert(ks.contains(k));
    let i = choose|i: int| 0 <= i < ks.len() && ks[i] == k;
    assert(out[i] == m[ks[i]]);
}

proof fn lemma_listed_only(out: Seq<HostView>, m: HostMap, keep: spec_fn(HostView) -> bool, i: int)
    requires
        lists(out, m, keep),
        0 <= i < out.len(),
    ensures
        keep(out[i]),
        exists|k: Seq<char>| m.contains_key(k) && m[k] == out[i],
{
    let ks = choose|ks: Seq<Seq<char>>| #[trigger] lists_by(out, m, keep, ks);
    assert(m.contains_key(ks[i]));
    assert(out[i] == m[ks[i]]);
}

/// A search lists a saved host whenever the lower-cased query stands (at some
/// position `j`) in the lower-cased text of any one of its tags.
pub proof fn law_search_finds_any_tag(
    out: Seq<HostView>,
    m: HostMap,
    query: Seq<char>,
    k: Seq<char>,
    i: int,
    j: int,
)
    requires
        lists(out, m, |h: HostView| matches_query(h, lowercase(query))),
        m.contains_key(k),
        0 <= i < m[k].tags.len(),
        0 <= j,
        j + lowercase(query).len() <= lowercase(m[k].tags[i]).len(),
        lowercase(m[k].tags[i]).subrange(j, j + lowercase(query).len()) == lowercase(query),
    ensures
        out.contains(m[k]),
{
    let q = lowercase(query);
    assert(occurs_at(lowercase(m[k].tags[i]), q, j));
    assert(has_text(lowercase(m[k].tags[i]), q));
    assert(matches_query(m[k], q));
    lemma_listed(out, m, |h: HostView| matches_query(h, lowercase(query)), k);
}

/// A search lists a saved host whenever the lower-cased query stands (at some
/// position `j`) in the lower-cased text of its name, its address or its group.
pub proof fn law_search_finds_name_address_group(
    out: Seq<HostView>,
    m: HostMap,
    query: Seq<char>,
    k: Seq<char>,
    t: Seq<char>,
    j: int,
)
    requires
        lists(out, m, |h: HostView| matches_query(h, lowercase(query))),
        m.contains_key(k),
        t == m[k].name || t == m[k].hostname || m[k].group == Some(t),
        0 <= j,
        j + lowercase(query).len() <= lowercase(t).len(),
        lowercase(t).subrange(j, j + lowercase(query).len()) == lowercase(query),
    ensures
        out.contains(m[k]),
{
    let q = lowercase(query);
    assert(occurs_at(lowercase(t), q, j));
    assert(has_text(lowercase(t), q));
    assert(matches_query(m[k], q));
    lemma_listed(out, m, |h: HostView| matches_query(h, lowercase(query)), k);
}

/// Every host that a search lists is a saved host, and the lower-cased query stands
/// in the lower-cased text of its name, its address, one of its tags or its group
/// (an empty text where it has none).
pub proof fn law_search_lists_only_matches(out: Seq<HostView>, m: HostMap, query: Seq<char>, i: int)
    requires
        lists(out, m, |h: HostView| matches_query(h, lowercase(query))),
        0 <= i < out.len(),
    ensures
        exists|k: Seq<char>| m.contains_key(k) && m[k] == out[i],
        ({
            let q = lowercase(query);
            let h = out[i];
            exists|t: Seq<char>, j: int| {
                &&& (t == h.name || t == h.hostname || h.tags.contains(t)
                    || t == (match h.group { Some(g) => g, None => Seq::<char>::empty() }))
                &&& 0 <= j
                &&& j + q.len() <= lowercase(t).len()
                &&& #[trigger] lowercase(t).subrange(j, j + q.len()) == q
            }
        }),
{
    let q = lowercase(query);
    lemma_listed_only(out, m, |h: HostView| matches_query(h, lowercase(query)), i);
    let h = out[i];
    assert(matches_query(h, q));
    let g = match h.group { Some(g) => g, None => Seq::<char>::empty() };
    if has_text(lowercase(h.name), q) {
        let j = choose|j: int| occurs_at(lowercase(h.name), q, j);
        assert(lowercase(h.name).subrange(j, j + q.len()) == q);
    } else if has_text(lowercase(h.hostname), q) {
        let j = choose|j: int| occurs_at(lowercase(h.hostname), q, j);
        assert(lowercase(h.hostname).subrange(j, j + q.len()) == q);
    } else if exists|a: int| 0 <= a < h.tags.len() && has_text(lowercase(#[trigger] h.tags[a]), q) {
        let a = choose|a: int| 0 <= a < h.tags.len() && has_text(lowercase(#[trigger] h.tags[a]), q);
        let j = choose|j: int| occurs_at(lowercase(h.tags[a]), q, j);
        assert(h.tags.contains(h.tags[a]));
        assert(lowercase(h.tags[a]).subrange(j, j + q.len()) == q);
    } else {
        assert(has_text(lowercase(g), q));
        let j = choose|j: int| occurs_at(lowercase(g), q, j);
        assert(lowercase(g).subrange(j, j + q.len()) == q);
    }
}

/// A listing of group `g` holds exactly the saved hosts whose group is `g`:
/// each listed host is saved and in group `g`, and each saved host of group `g` is listed.
pub proof fn law_group_listing_is_exact(out: Seq<HostView>, m: HostMap, g: Seq<char>)
    requires
        lists(out, m, |h: HostView| in_listing(h, Some(g))),
    ensures
        forall|i: int| 0 <= i < out.len() ==> #[trigger] out[i].group == Some(g),
        forall|i: int| 0 <= i < out.len() ==> m.contains_value(#[trigger] out[i]),
        forall|k: Seq<char>| m.contains_key(k) && m[k].group == Some(g) ==> #[trigger] out.contains(m[k]),
{
    let keep = |h: HostView| in_listing(h, Some(g));
    assert forall|i: int| 0 <= i < out.len() implies #[trigger] out[i].group == Some(g) by {
        lemma_listed_only(out, m, keep, i);
    }
    assert forall|i: int| 0 <= i < out.len() implies m.contains_value(#[trigger] out[i]) by {
        lemma_listed_only(out, m, keep, i);
        let k = choose|k: Seq<char>| m.contains_key(k) && m[k] == out[i];
        assert(m.dom().contains(k) && m[k] == out[i]);
    }
    assert forall|k: Seq<char>| m.contains_key(k) && m[k].group == Some(g) implies #[trigger] out.contains(m[k]) by {
        lemma_listed(out, m, keep, k);
    }
}

/// An edit of a saved host sets each field that is given to the given value and keeps
/// each field that is not, each independently of the others; the host's name, tags and
/// group, and every other host, stay as they were.
pub proof fn law_edit_sets_each_given_field(
    m: HostMap,
    name: Seq<char>,
    hostname: Option<Seq<char>>,
    user: Option<Seq<char>>,
    port: Option<u16>,
    identity: Option<Seq<char>>,
)
    requires
        m.contains_key(name),
    ensures
        edited(m, name, hostname, user, port, identity) is Ok,
        ({
            let m2 = edited(m, name, hostname, user, port, identity)->Ok_0;
            let old_h = m[name];
            let h = m2[name];
            &&& m2.dom() == m.dom()
            &&& forall|k: Seq<char>| m.contains_key(k) && k != name ==> #[trigger] m2[k] == m[k]
            &&& (hostname matches Some(v) ==> h.hostname == v)
            &&& (hostname is None ==> h.hostname == old_h.hostname)
            &&& (user matches Some(v) ==> h.user == v)
            &&& (user is None ==> h.user == old_h.user)
            &&& (port matches Some(v) ==> h.port == v)
            &&& (port is None ==> h.port == old_h.port)
            &&& (identity matches Some(v) ==> h.identity == Some(v))
            &&& (identity is None ==> h.identity == old_h.identity)
            &&& h.name == old_h.name
            &&& h.tags == old_h.tags
            &&& h.group == old_h.group
        }),
{
    let m2 = edited(m, name, hostname, user, port, identity)->Ok_0;
    assert(m2.dom() =~= m.dom());
}

/// Joining the parts of two non-empty lists of parts gives the join of the first,
/// the separator, then the join of the second.
pub proof fn law_join_concat(p: Seq<Seq<char>>, q: Seq<Seq<char>>, sep: Seq<char>)
    requires
        p.len() >= 1,
        q.len() >= 1,
    ensures
        joined(p + q, sep) == joined(p, sep) + sep + joined(q, sep),
    decreases q.len(),
{
    let pq = p + q;
    assert(pq.drop_last() =~= p + q.drop_last());
    assert(pq.last() == q.last());
    if q.len() == 1 {
        assert(pq.drop_last() =~= p);
    } else {
        law_join_concat(p, q.drop_last(), sep);
        assert(joined(pq, sep) == joined(p + q.drop_last(), sep) + sep + q.last());
        assert(joined(q, sep) == joined(q.drop_last(), sep) + sep + q.last());
        assert(joined(pq, sep) =~= joined(p, sep) + sep + joined(q, sep));
    }
}

proof fn lemma_join_starts_with_first(p: Seq<Seq<char>>, sep: Seq<char>)
    requires
        p.len() >= 1,
    ensures
        joined(p, sep).len() >= p[0].len(),
        joined(p, sep).subrange(0, p[0].len() as int) == p[0],
{
    if p.len() == 1 {
        assert(joined(p, sep).subrange(0, p[0].len() as int) =~= p[0]);
    } else {
        let a = p.take(1);
        let b = p.skip(1);
        assert(a + b =~= p);
        law_join_concat(a, b, sep);
        assert(joined(a, sep) == p[0]);
        let r = joined(a, sep) + sep + joined(b, sep);
        assert(r.subrange(0, p[0].len() as int) =~= p[0]);
    }
}

/// Every part stands in the joined text.
pub proof fn law_join_keeps_every_part(p: Seq<Seq<char>>, sep: Seq<char>, i: int)
    requires
        0 <= i < p.len(),
    ensures
        has_text(joined(p, sep), p[i]),
{
    if i == 0 {
        lemma_join_starts_with_first(p, sep);
        assert(occurs_at(joined(p, sep), p[0], 0));
    } else {
        let a = p.take(i);
        let b = p.skip(i);
        assert(a + b =~= p);
        law_join_concat(a, b, sep);
        lemma_join_starts_with_first(b, sep);
        assert(b[0] == p[i]);
        let pre = joined(a, sep) + sep;
        let r = pre + joined(b, sep);
        assert(r =~= joined(a, sep) + sep + joined(b, sep));
        assert(r.subrange(pre.len() as int, (pre.len() + p[i].len()) as int) =~= joined(b, sep).subrange(0, p[i].len() as int));
        assert(occurs_at(joined(p, sep), p[i], pre.len() as int));
    }
}

/// In a listing row, every tag of the host is shown, marked by ` #`.
pub proof fn law_row_shows_every_tag(h: HostView, i: int)
    requires
        0 <= i < h.tags.len(),
    ensures
        has_text(tags_marker(h), " #"@ + h.tags[i]),
{
    let p = h.tags;
    let sep = " #"@;
    let t = " #"@ + p[i];
    if i == 0 {
        lemma_join_starts_with_first(p, sep);
        let r = sep + joined(p, sep);
        assert(r.subrange(0, t.len() as int) =~= t);
        assert(occurs_at(tags_marker(h), t, 0));
    } else {
        let a = p.take(i);
        let b = p.skip(i);
        assert(a + b =~= p);
        law_join_concat(a, b, sep);
        lemma_join_starts_with_first(b, sep);
        assert(b[0] == p[i]);
        let pre = sep + joined(a, sep);
        let r = pre + sep + joined(b, sep);
        assert(tags_marker(h) =~= r);
        assert(r.subrange(pre.len() as int, (pre.len() + t.len()) as int) =~= t);
        assert(occurs_at(tags_marker(h), t, pre.len() as int));
    }
}

/// The forwarding rule given to `ssh -L` always names the local port, `localhost`
/// and the remote port, whatever the two ports are (equal ones too), and each port
/// reads back from it unchanged.
pub proof fn law_tunnel_names_both_ports(h: HostView, local: u16, remote: u16)
    ensures
        tunnel_command(h, local, remote)[2] == "-L"@,
        tunnel_command(h, local, remote)[3] == decimal(local as nat) + ":localhost:"@ + decimal(remote as nat),
        port_parse(tunnel_command(h, local, remote)[3].take(decimal(local as nat).len() as int))
            == Ok::<u16, crate::ports::PortsError>(local),
        port_parse(
            tunnel_command(h, local, remote)[3].skip(
                tunnel_command(h, local, remote)[3].len() - decimal(remote as nat).len(),
            ),
        ) == Ok::<u16, crate::ports::PortsError>(remote),
{
    let a = decimal(local as nat);
    let b = decimal(remote as nat);
    let rule = a + ":localhost:"@ + b;
    assert(tunnel_command(h, local, remote)[3] == rule);
    assert(rule.take(a.len() as int) =~= a);
    assert(rule.skip(rule.len() - b.len()) =~= b);
    law_port_round_trip(local);
    law_port_round_trip(remote);
}

} // verus!
