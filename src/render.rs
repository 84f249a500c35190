//! Writing a configuration back out in OpenSSH syntax.
use vstd::prelude::*;
use crate::model::{ConfigView, ForwardView, LocalForward, ParsedConfig, ServerConfig, ServerView};
use crate::model::{pairs_view, servers_view, strings_view};
use crate::text::{chars_of, decimal, decimal_chars, join_lines, string_of};

verus! {

pub open spec fn indent() -> Seq<char> {
    seq![' ', ' ', ' ', ' ']
}

/// `Host <tag>`
pub open spec fn host_line(tag: Seq<char>) -> Seq<char> {
    seq!['H', 'o', 's', 't', ' '] + tag
}

/// An indented `<key> <value>` line of the wildcard block.
pub open spec fn global_line(kv: (Seq<char>, Seq<char>)) -> Seq<char> {
    indent() + kv.0 + seq![' '] + kv.1
}

pub open spec fn user_line(u: Seq<char>) -> Seq<char> {
    indent() + seq!['U', 's', 'e', 'r', ' '] + u
}

pub open spec fn hostname_line(h: Seq<char>) -> Seq<char> {
    indent() + seq!['H', 'o', 's', 't', 'n', 'a', 'm', 'e', ' '] + h
}

pub open spec fn port_line(p: u16) -> Seq<char> {
    indent() + seq!['P', 'o', 'r', 't', ' '] + decimal(p as nat)
}

pub open spec fn forward_agent_line() -> Seq<char> {
    indent() + seq!['F', 'o', 'r', 'w', 'a', 'r', 'd', 'A', 'g', 'e', 'n', 't', ' ', 'y', 'e', 's']
}

pub open spec fn dynamic_forward_line(d: Seq<char>) -> Seq<char> {
    indent() + seq!['D', 'y', 'n', 'a', 'm', 'i', 'c', 'F', 'o', 'r', 'w', 'a', 'r', 'd', ' '] + d
}

/// `LocalForward <local_port> <remote_host>:<remote_port>`, indented.
pub open spec fn local_forward_line(f: ForwardView) -> Seq<char> {
    indent() + seq!['L', 'o', 'c', 'a', 'l', 'F', 'o', 'r', 'w', 'a', 'r', 'd', ' '] + decimal(
        f.local_port as nat,
    ) + seq![' '] + f.remote_host + seq![':'] + decimal(f.remote_port as nat)
}

pub open spec fn proxy_jump_line(p: Seq<char>) -> Seq<char> {
    indent() + seq!['P', 'r', 'o', 'x', 'y', 'J', 'u', 'm', 'p', ' '] + p
}

/// `# Group <group>`
pub open spec fn group_line(g: Seq<char>) -> Seq<char> {
    seq!['#', ' ', 'G', 'r', 'o', 'u', 'p', ' '] + g
}

/// The words `ts` separated by single spaces.
pub open spec fn join_words(ts: Seq<Seq<char>>) -> Seq<char>
    decreases ts.len(),
{
    if ts.len() == 0 {
        Seq::empty()
    } else if ts.len() == 1 {
        ts[0]
    } else {
        join_words(ts.drop_last()) + seq![' '] + ts.last()
    }
}

/// `# Tags <tag> <tag> ...`
pub open spec fn tags_line(ts: Seq<Seq<char>>) -> Seq<char> {
    seq!['#', ' ', 'T', 'a', 'g', 's', ' '] + join_words(ts)
}

/// The line `l` where `present`, else nothing.
pub open spec fn opt_line(present: bool, l: Seq<char>) -> Seq<Seq<char>> {
    if present {
        seq![l]
    } else {
        Seq::empty()
    }
}

/// The lines of the fields that differ from their defaults, in a fixed
/// order.
pub open spec fn field_lines(h: ServerView) -> Seq<Seq<char>> {
    opt_line(h.user.len() > 0, user_line(h.user)) + opt_line(
        h.hostname.len() > 0,
        hostname_line(h.hostname),
    ) + opt_line(h.port != 22, port_line(h.port)) + opt_line(
        h.forward_agent,
        forward_agent_line(),
    ) + opt_line(h.dynamic_forward is Some, dynamic_forward_line(h.dynamic_forward->0))
        + opt_line(h.local_forward is Some, local_forward_line(h.local_forward->0)) + opt_line(
        h.proxy_jump is Some,
        proxy_jump_line(h.proxy_jump->0),
    )
}

/// The `# Group` and `# Tags` lines of the annotations that are set.
pub open spec fn annotation_lines(h: ServerView) -> Seq<Seq<char>> {
    opt_line(h.group.len() > 0, group_line(h.group)) + opt_line(h.tags.len() > 0, tags_line(h.tags))
}

/// A host block: its `Host` line, the field lines, the annotation lines,
/// and a blank line.
pub open spec fn host_lines(h: ServerView) -> Seq<Seq<char>> {
    seq![host_line(h.host_tag)] + field_lines(h) + annotation_lines(h) + seq![Seq::<char>::empty()]
}

/// The host blocks of `ss`, in order.
pub open spec fn servers_lines(ss: Seq<ServerView>) -> Seq<Seq<char>>
    decreases ss.len(),
{
    if ss.len() == 0 {
        Seq::empty()
    } else {
        servers_lines(ss.drop_last()) + host_lines(ss.last())
    }
}

/// One line per pair, in order.
pub open spec fn pair_lines(gs: Seq<(Seq<char>, Seq<char>)>) -> Seq<Seq<char>> {
    gs.map_values(|kv: (Seq<char>, Seq<char>)| global_line(kv))
}

/// The wildcard block: `Host *`, its pairs in order, and a blank line;
/// nothing at all when there are no pairs.
pub open spec fn global_lines(gs: Seq<(Seq<char>, Seq<char>)>) -> Seq<Seq<char>> {
    if gs.len() > 0 {
        seq![host_line(seq!['*'])] + pair_lines(gs) + seq![Seq::<char>::empty()]
    } else {
        Seq::empty()
    }
}

pub open spec fn config_lines(c: ConfigView) -> Seq<Seq<char>> {
    global_lines(c.global) + servers_lines(c.servers)
}

/// The text that `render_ssh_config` writes for `c`.
pub open spec fn render(c: ConfigView) -> Seq<char> {
    join_lines(config_lines(c))
}

pub proof fn lemma_join_lines_concat(a: Seq<Seq<char>>, b: Seq<Seq<char>>)
    ensures
        join_lines(a + b) == join_lines(a) + join_lines(b),
    decreases a.len(),
{
    if a.len() == 0 {
        assert(a + b =~= b);
        assert(join_lines(a) + join_lines(b) =~= join_lines(b));
    } else {
        lemma_join_lines_concat(a.drop_first(), b);
        assert((a + b).drop_first() =~= a.drop_first() + b);
        assert(join_lines(a + b) =~= join_lines(a) + join_lines(b));
    }
}

proof fn lemma_join_one(l: Seq<char>)
    ensures
        join_lines(seq![l]) == l + seq!['\n'],
{
    assert(seq![l].drop_first() =~= Seq::<Seq<char>>::empty());
    assert(join_lines(Seq::<Seq<char>>::empty()) == Seq::<char>::empty());
    assert(join_lines(seq![l]) =~= l + seq!['\n']);
}

fn push_chars(out: &mut Vec<char>, s: &[char])
    ensures
        final(out)@ == old(out)@ + s@,
{
    let mut i: usize = 0;
    while i < s.len()
        invariant
            i <= s.len(),
            out@ == old(out)@ + s@.subrange(0, i as int),
        decreases s.len() - i,
    {
        out.push(s[i]);
        i += 1;
        assert(out@ =~= old(out)@ + s@.subrange(0, i as int));
    }
    assert(s@.subrange(0, s@.len() as int) =~= s@);
}

fn push_str(out: &mut Vec<char>, s: &String)
    ensures
        final(out)@ == old(out)@ + s@,
{
    let v = chars_of(s.as_str());
    push_chars(out, v.as_slice());
}

fn push_decimal(out: &mut Vec<char>, n: u16)
    ensures
        final(out)@ == old(out)@ + decimal(n as nat),
{
    let v = decimal_chars(n);
    push_chars(out, v.as_slice());
}

/// Ends a line whose characters were pushed since `out` was `before`.
fn end_line(out: &mut Vec<char>, Ghost(before): Ghost<Seq<char>>, Ghost(l): Ghost<Seq<char>>)
    requires
        old(out)@ == before + l,
    ensures
        final(out)@ == before + join_lines(seq![l]),
{
    out.push('\n');
    proof {
        lemma_join_one(l);
    }
    assert(out@ =~= before + join_lines(seq![l]));
}

fn push_tags(out: &mut Vec<char>, tags: &Vec<String>)
    ensures
        final(out)@ == old(out)@ + join_words(strings_view(tags@)),
{
    let ghost ts = strings_view(tags@);
    let mut i: usize = 0;
    while i < tags.len()
        invariant
            i <= tags.len(),
            ts == strings_view(tags@),
            out@ == old(out)@ + join_words(ts.take(i as int)),
        decreases tags.len() - i,
    {
        let ghost mid = out@;
        if i > 0 {
            out.push(' ');
        }
        push_str(out, &tags[i]);
        assert(ts.take(i + 1).drop_last() =~= ts.take(i as int));
        if i == 0 {
            assert(join_words(ts.take(0)) =~= Seq::<char>::empty());
            assert(out@ =~= old(out)@ + join_words(ts.take(i + 1)));
        } else {
            assert(out@ =~= old(out)@ + join_words(ts.take(i + 1)));
        }
        i += 1;
    }
    assert(ts.take(tags.len() as int) =~= ts);
}

/// Appends the line `l` and a line feed.
fn emit(out: &mut Vec<char>, l: &Vec<char>)
    ensures
        final(out)@ == old(out)@ + join_lines(seq![l@]),
{
    let ghost before = out@;
    push_chars(out, l.as_slice());
    end_line(out, Ghost(before), Ghost(l@));
}

fn host_line_chars(tag: &String) -> (r: Vec<char>)
    ensures
        r@ == host_line(tag@),
{
    let mut r: Vec<char> = Vec::new();
    push_chars(&mut r, &['H', 'o', 's', 't', ' ']);
    push_str(&mut r, tag);
    assert(r@ =~= host_line(tag@));
    r
}

fn user_line_chars(u: &String) -> (r: Vec<char>)
    ensures
        r@ == user_line(u@),
{
    let mut r: Vec<char> = Vec::new();
    push_chars(&mut r, &[' ', ' ', ' ', ' ', 'U', 's', 'e', 'r', ' ']);
    push_str(&mut r, u);
    assert(r@ =~= user_line(u@));
    r
}

fn hostname_line_chars(h: &String) -> (r: Vec<char>)
    ensures
        r@ == hostname_line(h@),
{
    let mut r: Vec<char> = Vec::new();
    push_chars(&mut r, &[' ', ' ', ' ', ' ', 'H', 'o', 's', 't', 'n', 'a', 'm', 'e', ' ']);
    push_str(&mut r, h);
    assert(r@ =~= hostname_line(h@));
    r
}

fn port_line_chars(p: u16) -> (r: Vec<char>)
    ensures
        r@ == port_line(p),
{
    let mut r: Vec<char> = Vec::new();
    push_chars(&mut r, &[' ', ' ', ' ', ' ', 'P', 'o', 'r', 't', ' ']);
    push_decimal(&mut r, p);
    assert(r@ =~= port_line(p));
    r
}

fn forward_agent_line_chars() -> (r: Vec<char>)
    ensures
        r@ == forward_agent_line(),
{
    let mut r: Vec<char> = Vec::new();
    push_chars(
        &mut r,
        &[' ', ' ', ' ', ' ', 'F', 'o', 'r', 'w', 'a', 'r', 'd', 'A', 'g', 'e', 'n', 't', ' ', 'y', 'e', 's'],
    );
    assert(r@ =~= forward_agent_line());
    r
}

fn dynamic_forward_line_chars(d: &String) -> (r: Vec<char>)
    ensures
        r@ == dynamic_forward_line(d@),
{
    let mut r: Vec<char> = Vec::new();
    push_chars(
        &mut r,
        &[' ', ' ', ' ', ' ', 'D', 'y', 'n', 'a', 'm', 'i', 'c', 'F', 'o', 'r', 'w', 'a', 'r', 'd', ' '],
    );
    push_str(&mut r, d);
    assert(r@ =~= dynamic_forward_line(d@));
    r
}

fn local_forward_line_chars(f: &LocalForward) -> (r: Vec<char>)
    ensures
        r@ == local_forward_line(f@),
{
    let mut r: Vec<char> = Vec::new();
    push_chars(
        &mut r,
        &[' ', ' ', ' ', ' ', 'L', 'o', 'c', 'a', 'l', 'F', 'o', 'r', 'w', 'a', 'r', 'd', ' '],
    );
    push_decimal(&mut r, f.local_port);
    r.push(' ');
    push_str(&mut r, &f.remote_host);
    r.push(':');
    push_decimal(&mut r, f.remote_port);
    assert(r@ =~= local_forward_line(f@));
    r
}

fn proxy_jump_line_chars(p: &String) -> (r: Vec<char>)
    ensures
        r@ == proxy_jump_line(p@),
{
    let mut r: Vec<char> = Vec::new();
    push_chars(&mut r, &[' ', ' ', ' ', ' ', 'P', 'r', 'o', 'x', 'y', 'J', 'u', 'm', 'p', ' ']);
    push_str(&mut r, p);
    assert(r@ =~= proxy_jump_line(p@));
    r
}

fn group_line_chars(g: &String) -> (r: Vec<char>)
    ensures
        r@ == group_line(g@),
{
    let mut r: Vec<char> = Vec::new();
    push_chars(&mut r, &['#', ' ', 'G', 'r', 'o', 'u', 'p', ' ']);
    push_str(&mut r, g);
    assert(r@ =~= group_line(g@));
    r
}

fn tags_line_chars(tags: &Vec<String>) -> (r: Vec<char>)
    ensures
        r@ == tags_line(strings_view(tags@)),
{
    let mut r: Vec<char> = Vec::new();
    push_chars(&mut r, &['#', ' ', 'T', 'a', 'g', 's', ' ']);
    push_tags(&mut r, tags);
    assert(r@ =~= tags_line(strings_view(tags@)));
    r
}

fn global_line_chars(kv: &(String, String)) -> (r: Vec<char>)
    ensures
        r@ == global_line((kv.0@, kv.1@)),
{
    let mut r: Vec<char> = Vec::new();
    push_chars(&mut r, &[' ', ' ', ' ', ' ']);
    push_str(&mut r, &kv.0);
    r.push(' ');
    push_str(&mut r, &kv.1);
    assert(r@ =~= global_line((kv.0@, kv.1@)));
    r
}

/// Appends the lines `more` to a block whose lines so far are `acc`.
proof fn lemma_add_lines(
    start: Seq<char>,
    acc: Seq<Seq<char>>,
    more: Seq<Seq<char>>,
    out: Seq<char>,
)
    requires
        out == start + join_lines(acc) + join_lines(more),
    ensures
        out == start + join_lines(acc + more),
{
    lemma_join_lines_concat(acc, more);
    assert(out =~= start + join_lines(acc + more));
}

proof fn lemma_no_lines(out: Seq<char>)
    ensures
        out == out + join_lines(Seq::empty()),
{
    assert(out =~= out + join_lines(Seq::empty()));
}

fn push_field_lines(out: &mut Vec<char>, h: &ServerConfig)
    ensures
        final(out)@ == old(out)@ + join_lines(field_lines(h@)),
{
    let ghost v = h@;
    let ghost start = old(out)@;
    let ghost mut acc: Seq<Seq<char>> = Seq::empty();
    let ghost mut more: Seq<Seq<char>>;
    proof {
        lemma_no_lines(start);
    }
    if !h.user.as_str().is_empty() {
        emit(out, &user_line_chars(&h.user));
    }
    proof {
        more = opt_line(v.user.len() > 0, user_line(v.user));
        lemma_add_lines(start, acc, more, out@);
        assert(acc + more =~= more);
        acc = more;
        lemma_no_lines(out@);
    }
    if !h.hostname.as_str().is_empty() {
        emit(out, &hostname_line_chars(&h.hostname));
    }
    proof {
        more = opt_line(v.hostname.len() > 0, hostname_line(v.hostname));
        lemma_add_lines(start, acc, more, out@);
        acc = acc + more;
        lemma_no_lines(out@);
    }
    if h.port != 22 {
        emit(out, &port_line_chars(h.port));
    }
    proof {
        more = opt_line(v.port != 22, port_line(v.port));
        lemma_add_lines(start, acc, more, out@);
        acc = acc + more;
        lemma_no_lines(out@);
    }
    if h.forward_agent {
        emit(out, &forward_agent_line_chars());
    }
    proof {
        more = opt_line(v.forward_agent, forward_agent_line());
        lemma_add_lines(start, acc, more, out@);
        acc = acc + more;
        lemma_no_lines(out@);
    }
    if let Some(d) = &h.dynamic_forward {
        emit(out, &dynamic_forward_line_chars(d));
    }
    proof {
        more = opt_line(v.dynamic_forward is Some, dynamic_forward_line(v.dynamic_forward->0));
        lemma_add_lines(start, acc, more, out@);
        acc = acc + more;
        lemma_no_lines(out@);
    }
    if let Some(f) = &h.local_forward {
        emit(out, &local_forward_line_chars(f));
    }
    proof {
        more = opt_line(v.local_forward is Some, local_forward_line(v.local_forward->0));
        lemma_add_lines(start, acc, more, out@);
        acc = acc + more;
        lemma_no_lines(out@);
    }
    if let Some(p) = &h.proxy_jump {
        emit(out, &proxy_jump_line_chars(p));
    }
    proof {
        more = opt_line(v.proxy_jump is Some, proxy_jump_line(v.proxy_jump->0));
        lemma_add_lines(start, acc, more, out@);
        acc = acc + more;
    }
}

fn push_annotation_lines(out: &mut Vec<char>, h: &ServerConfig)
    ensures
        final(out)@ == old(out)@ + join_lines(annotation_lines(h@)),
{
    let ghost v = h@;
    let ghost start = old(out)@;
    let ghost mid;
    proof {
        lemma_no_lines(start);
    }
    if !h.group.as_str().is_empty() {
        emit(out, &group_line_chars(&h.group));
    }
    proof {
        mid = out@;
        lemma_no_lines(mid);
    }
    if h.tags.len() > 0 {
        emit(out, &tags_line_chars(&h.tags));
    }
    proof {
        lemma_join_lines_concat(
            opt_line(v.group.len() > 0, group_line(v.group)),
            opt_line(v.tags.len() > 0, tags_line(v.tags)),
        );
        assert(out@ =~= start + join_lines(annotation_lines(v)));
    }
}

fn push_host_block(out: &mut Vec<char>, h: &ServerConfig)
    ensures
        final(out)@ == old(out)@ + join_lines(host_lines(h@)),
{
    let ghost v = h@;
    let ghost start = old(out)@;
    emit(out, &host_line_chars(&h.host_tag));
    push_field_lines(out, h);
    push_annotation_lines(out, h);
    emit(out, &Vec::new());
    proof {
        let l0 = seq![host_line(v.host_tag)];
        let l3 = seq![Seq::<char>::empty()];
        lemma_join_lines_concat(l0, field_lines(v));
        lemma_join_lines_concat(l0 + field_lines(v), annotation_lines(v));
        lemma_join_lines_concat(l0 + field_lines(v) + annotation_lines(v), l3);
        assert(out@ =~= start + join_lines(host_lines(v)));
    }
}

/// Writes `config` in OpenSSH syntax: the wildcard block first when it has
/// pairs, then one block per host in stored order. A field is written only
/// where it differs from its default (`Port` only when it is not 22,
/// `ForwardAgent yes` only when on), and `# Group` / `# Tags` only when
/// they hold something. Every block ends with a blank line.
pub fn render_ssh_config(config: &ParsedConfig) -> (r: String)
    ensures
        r@ == render(config@),
{
    let mut out: Vec<char> = Vec::new();
    let ghost c = config@;
    let ghost gs = c.global;
    if config.global.len() > 0 {
        let mut first: Vec<char> = Vec::new();
        push_chars(&mut first, &['H', 'o', 's', 't', ' ', '*']);
        assert(first@ =~= host_line(seq!['*']));
        emit(&mut out, &first);
        assert(out@ =~= join_lines(seq![host_line(seq!['*'])]));
        assert(seq![host_line(seq!['*'])] + pair_lines(gs.take(0)) =~= seq![host_line(seq!['*'])]);
        let ghost head = seq![host_line(seq!['*'])];
        let mut i: usize = 0;
        while i < config.global.len()
            invariant
                i <= config.global.len(),
                c == config@,
                gs == c.global,
                out@ == join_lines(
                    head + pair_lines(gs.take(i as int)),
                ),
            decreases config.global.len() - i,
        {
            let ghost before = out@;
            let ghost prev = head + pair_lines(gs.take(i as int));
            let pair = &config.global[i];
            assert(gs[i as int] == (pair.0@, pair.1@));
            emit(&mut out, &global_line_chars(pair));
            proof {
                lemma_add_lines(Seq::empty(), prev, seq![global_line(gs[i as int])], out@);
                assert(prev + seq![global_line(gs[i as int])] =~= head + pair_lines(gs.take(i + 1)));
                assert(Seq::<char>::empty() + join_lines(head + pair_lines(gs.take(i + 1))) =~= join_lines(head + pair_lines(gs.take(i + 1))));
            }
            i += 1;
        }
        let ghost before = out@;
        end_line(&mut out, Ghost(before), Ghost(Seq::<char>::empty()));
        proof {
            assert(gs.take(gs.len() as int) =~= gs);
            assert(before + Seq::<char>::empty() =~= before);
            lemma_add_lines(
                Seq::empty(),
                head + pair_lines(gs),
                seq![Seq::<char>::empty()],
                out@,
            );
            assert(Seq::<char>::empty() + join_lines(global_lines(gs)) =~= join_lines(
                global_lines(gs),
            ));
        }
    } else {
        assert(join_lines(global_lines(gs)) =~= out@);
    }
    let ghost prefix = out@;
    let ghost ss = c.servers;
    let mut i: usize = 0;
    while i < config.servers.len()
        invariant
            i <= config.servers.len(),
            c == config@,
            ss == c.servers,
            out@ == prefix + join_lines(servers_lines(ss.take(i as int))),
        decreases config.servers.len() - i,
    {
        let ghost before = out@;
        push_host_block(&mut out, &config.servers[i]);
        proof {
            assert(ss[i as int] == config.servers@[i as int]@);
            assert(ss.take(i + 1).drop_last() =~= ss.take(i as int));
            assert(ss.take(i + 1).last() == ss[i as int]);
            lemma_join_lines_concat(servers_lines(ss.take(i as int)), host_lines(ss[i as int]));
            assert(out@ =~= prefix + join_lines(servers_lines(ss.take(i + 1))));
        }
        i += 1;
    }
    proof {
        assert(ss.take(ss.len() as int) =~= ss);
        lemma_join_lines_concat(global_lines(gs), servers_lines(ss));
    }
    string_of(out.as_slice())
}

} // verus!
