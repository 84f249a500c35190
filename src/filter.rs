//! Selecting the annotated hosts by group and tag.
use vstd::prelude::*;
use crate::model::{ParsedConfig, ServerConfig, ServerView, servers_view, strings_view};
use crate::text::chars_of;

verus! {

/// `p` occurs in `s` as a contiguous piece.
pub open spec fn contains_sub(s: Seq<char>, p: Seq<char>) -> bool {
    exists|i: int| 0 <= i && i + p.len() <= s.len() && #[trigger] s.subrange(i, i + p.len()) == p
}

/// The filter's predicate: a host with a non-empty tag that carries a group
/// or tags, whose group contains `group` when one is asked for, and whose
/// tags hold `tag` exactly when one is asked for.
pub open spec fn keep(h: ServerView, group: Option<Seq<char>>, tag: Option<Seq<char>>) -> bool {
    &&& h.host_tag.len() > 0
    &&& (h.group.len() > 0 || h.tags.len() > 0)
    &&& match group {
        Some(g) => h.group.len() > 0 && contains_sub(h.group, g),
        None => true,
    }
    &&& match tag {
        Some(t) => h.tags.contains(t),
        None => true,
    }
}

/// The hosts of `ss` that `keep` accepts, in their order.
pub open spec fn select(ss: Seq<ServerView>, group: Option<Seq<char>>, tag: Option<Seq<char>>) -> Seq<
    ServerView,
>
    decreases ss.len(),
{
    if ss.len() == 0 {
        Seq::empty()
    } else {
        let rest = select(ss.drop_last(), group, tag);
        if keep(ss.last(), group, tag) {
            rest.push(ss.last())
        } else {
            rest
        }
    }
}

pub open spec fn opt_str_view(o: Option<&str>) -> Option<Seq<char>> {
    match o {
        Some(s) => Some(s@),
        None => None,
    }
}

/// Whether `p` occurs in `s` at `i`.
fn occurs_at(s: &Vec<char>, p: &Vec<char>, i: usize) -> (r: bool)
    requires
        i + p.len() <= s.len(),
    ensures
        r == (s@.subrange(i as int, i + p.len()) == p@),
{
    let mut k: usize = 0;
    while k < p.len()
        invariant
            k <= p.len(),
            i + p.len() <= s.len(),
            forall|m: int| 0 <= m < k ==> s@[i + m] == #[trigger] p@[m],
        decreases p.len() - k,
    {
        if s[i + k] != p[k] {
            assert(s@.subrange(i as int, i + p.len())[k as int] != p@[k as int]);
            return false;
        }
        k += 1;
    }
    assert(s@.subrange(i as int, i + p.len()) =~= p@);
    true
}

/// Whether `p` occurs in `s`.
pub fn contains_chars(s: &Vec<char>, p: &Vec<char>) -> (r: bool)
    ensures
        r == contains_sub(s@, p@),
{
    if p.len() > s.len() {
        return false;
    }
    let last = s.len() - p.len();
    let mut i: usize = 0;
    while i < last
        invariant
            last == s.len() - p.len(),
            i <= last,
            forall|j: int| 0 <= j < i ==> #[trigger] s@.subrange(j, j + p.len()) != p@,
        decreases last - i,
    {
        if occurs_at(s, p, i) {
            return true;
        }
        i += 1;
    }
    occurs_at(s, p, last)
}

fn has_tag(tags: &Vec<String>, t: &String) -> (r: bool)
    ensures
        r == strings_view(tags@).contains(t@),
{
    let ghost ts = strings_view(tags@);
    let mut i: usize = 0;
    while i < tags.len()
        invariant
            i <= tags.len(),
            ts == strings_view(tags@),
            forall|j: int| 0 <= j < i ==> ts[j] != t@,
        decreases tags.len() - i,
    {
        if tags[i] == *t {
            assert(ts[i as int] == t@);
            return true;
        }
        i += 1;
    }
    false
}

fn keeps(h: &ServerConfig, group: &Option<Vec<char>>, tag: &Option<String>) -> (r: bool)
    ensures
        r == keep(
            h@,
            match group {
                Some(g) => Some(g@),
                None => None,
            },
            match tag {
                Some(t) => Some(t@),
                None => None,
            },
        ),
{
    if h.host_tag.as_str().is_empty() {
        return false;
    }
    if h.group.as_str().is_empty() && h.tags.len() == 0 {
        return false;
    }
    let group_ok = match group {
        Some(g) => !h.group.as_str().is_empty() && contains_chars(&chars_of(h.group.as_str()), g),
        None => true,
    };
    let tag_ok = match tag {
        Some(t) => has_tag(&h.tags, t),
        None => true,
    };
    group_ok && tag_ok
}

/// The annotated hosts of `servers` that match the filters, in stored
/// order: a host is kept when its tag is non-empty, it has a group or tags,
/// its group contains `group` (when given) and one of its tags equals
/// `tags` (when given).
pub fn filter_servers(servers: &ParsedConfig, group: Option<&str>, tags: Option<&str>) -> (r: Vec<
    ServerConfig,
>)
    ensures
        servers_view(r@) == select(servers@.servers, opt_str_view(group), opt_str_view(tags)),
{
    let ghost ss = servers@.servers;
    let group_chars: Option<Vec<char>> = match group {
        Some(g) => Some(chars_of(g)),
        None => None,
    };
    let tag_string: Option<String> = match tags {
        Some(t) => Some(String::from_str(t)),
        None => None,
    };
    let mut out: Vec<ServerConfig> = Vec::new();
    let mut i: usize = 0;
    while i < servers.servers.len()
        invariant
            i <= servers.servers.len(),
            ss == servers@.servers,
            match group_chars {
                Some(g) => Some(g@),
                None => None,
            } == opt_str_view(group),
            match tag_string {
                Some(t) => Some(t@),
                None => None,
            } == opt_str_view(tags),
            servers_view(out@) == select(
                ss.take(i as int),
                opt_str_view(group),
                opt_str_view(tags),
            ),
        decreases servers.servers.len() - i,
    {
        let h = &servers.servers[i];
        assert(ss.take(i + 1).drop_last() =~= ss.take(i as int));
        assert(ss.take(i + 1).last() == h@);
        if keeps(h, &group_chars, &tag_string) {
            let ghost before = out@;
            out.push(h.duplicate());
            assert(servers_view(out@) =~= servers_view(before).push(h@));
        }
        i += 1;
    }
    assert(ss.take(ss.len() as int) =~= ss);
    out
}

} // verus!
