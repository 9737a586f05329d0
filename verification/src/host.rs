use vstd::prelude::*;
use crate::text::{join, joined};

verus! {

/// The text of an optional string.
pub open spec fn opt_text(s: Option<String>) -> Option<Seq<char>> {
    match s {
        Some(t) => Some(t@),
        None => None,
    }
}

/// The texts of a list of strings.
pub open spec fn texts(v: Seq<String>) -> Seq<Seq<char>> {
    v.map_values(|t: String| t@)
}

/// One SSH host entry.
#[derive(Debug)]
pub struct Host {
    pub name: String,
    pub hostname: String,
    pub user: String,
    pub port: u16,
    pub identity: Option<String>,
    pub tags: Vec<String>,
    pub group: Option<String>,
}

/// What a host entry holds, as text.
pub struct HostView {
    pub name: Seq<char>,
    pub hostname: Seq<char>,
    pub user: Seq<char>,
    pub port: u16,
    pub identity: Option<Seq<char>>,
    pub tags: Seq<Seq<char>>,
    pub group: Option<Seq<char>>,
}

impl HostView {
    /// The same entry under another name.
    pub open spec fn with_name(self, name: Seq<char>) -> HostView {
        HostView { name, ..self }
    }

    /// The entry with the given fields replaced; the others kept.
    pub open spec fn with_edits(
        self,
        hostname: Option<Seq<char>>,
        user: Option<Seq<char>>,
        port: Option<u16>,
        identity: Option<Seq<char>>,
    ) -> HostView {
        HostView {
            hostname: match hostname { Some(v) => v, None => self.hostname },
            user: match user { Some(v) => v, None => self.user },
            port: match port { Some(v) => v, None => self.port },
            identity: match identity { Some(v) => Some(v), None => self.identity },
            ..self
        }
    }

    /// The entry with `tag` added at the end of its tags, unless it has that tag already.
    pub open spec fn with_tag(self, tag: Seq<char>) -> HostView {
        if self.tags.contains(tag) {
            self
        } else {
            HostView { tags: self.tags.push(tag), ..self }
        }
    }

    /// The entry placed in `group`.
    pub open spec fn with_group(self, group: Seq<char>) -> HostView {
        HostView { group: Some(group), ..self }
    }

    /// The `user@hostname` text that ssh and scp are given.
    pub open spec fn connection(self) -> Seq<char> {
        self.user + seq!['@'] + self.hostname
    }
}

impl View for Host {
    type V = HostView;

    open spec fn view(&self) -> HostView {
        HostView {
            name: self.name@,
            hostname: self.hostname@,
            user: self.user@,
            port: self.port,
            identity: opt_text(self.identity),
            tags: texts(self.tags@),
            group: opt_text(self.group),
        }
    }
}

/// A copy of an optional string.
pub fn copy_opt(s: &Option<String>) -> (r: Option<String>)
    ensures
        opt_text(r) == opt_text(*s),
{
    match s {
        Some(t) => Some(t.clone()),
        None => None,
    }
}

/// A copy of a list of strings.
pub fn copy_texts(v: &Vec<String>) -> (r: Vec<String>)
    ensures
        texts(r@) == texts(v@),
{
    let mut r: Vec<String> = Vec::new();
    let mut i: usize = 0;
    while i < v.len()
        invariant
            i <= v.len(),
            r.len() == i,
            forall|j: int| 0 <= j < i ==> #[trigger] r@[j]@ == v@[j]@,
        decreases v.len() - i,
    {
        r.push(v[i].clone());
        i = i + 1;
    }
    proof {
        assert(texts(r@) =~= texts(v@));
    }
    r
}

impl Host {
    /// A host with the given name, address, user and port; no identity file, no tags and no group.
    pub fn new(name: &str, hostname: &str, user: &str, port: u16) -> (h: Host)
        ensures
            h@ == (HostView {
                name: name@,
                hostname: hostname@,
                user: user@,
                port,
                identity: None,
                tags: Seq::empty(),
                group: None,
            }),
    {
        let h = Host {
            name: String::from_str(name),
            hostname: String::from_str(hostname),
            user: String::from_str(user),
            port,
            identity: None,
            tags: Vec::new(),
            group: None,
        };
        proof {
            assert(texts(h.tags@) =~= Seq::<Seq<char>>::empty());
        }
        h
    }

    /// `user@hostname`.
    pub fn connection_string(&self) -> (s: String)
        ensures
            s@ == self@.connection(),
    {
        let mut s = self.user.clone();
        proof { reveal_strlit("@"); }
        s.append("@");
        s.append(self.hostname.as_str());
        s
    }
}

/// Whether `tag` is among `tags`.
pub fn has_tag(tags: &Vec<String>, tag: &String) -> (r: bool)
    ensures
        r == texts(tags@).contains(tag@),
{
    let mut i: usize = 0;
    while i < tags.len()
        invariant
            i <= tags.len(),
            forall|j: int| 0 <= j < i ==> texts(tags@)[j] != tag@,
        decreases tags.len() - i,
    {
        if tags[i] == *tag {
            proof { assert(texts(tags@)[i as int] == tag@); }
            return true;
        }
        i = i + 1;
    }
    false
}

/// The group marker of a listing row: ` [group]`, or none.
pub open spec fn group_marker(h: HostView) -> Option<Seq<char>> {
    match h.group {
        Some(g) => Some(" ["@ + g + "]"@),
        None => None,
    }
}

/// The tag marker of a listing row: ` #a #b` for the tags in order, or empty.
pub open spec fn tags_marker(h: HostView) -> Seq<char> {
    if h.tags.len() == 0 {
        Seq::empty()
    } else {
        " #"@ + joined(h.tags, " #"@)
    }
}

impl Host {
    /// The group marker of this host's listing row.
    pub fn group_label(&self) -> (r: Option<String>)
        ensures
            opt_text(r) == group_marker(self@),
    {
        match &self.group {
            Some(g) => {
                let mut s = String::from_str(" [");
                s.append(g.as_str());
                s.append("]");
                Some(s)
            },
            None => None,
        }
    }

    /// The tag marker of this host's listing row.
    pub fn tags_label(&self) -> (r: String)
        ensures
            r@ == tags_marker(self@),
    {
        if self.tags.len() == 0 {
            String::new()
        } else {
            let mut s = String::from_str(" #");
            let rest = join(&self.tags, " #");
            s.append(rest.as_str());
            s
        }
    }
}

impl Clone for Host {
    fn clone(&self) -> (h: Host)
        ensures
            h@ == self@,
    {
        Host {
            name: self.name.clone(),
            hostname: self.hostname.clone(),
            user: self.user.clone(),
            port: self.port,
            identity: copy_opt(&self.identity),
            tags: copy_texts(&self.tags),
            group: copy_opt(&self.group),
        }
    }
}

} // verus!
