//! Laws that relate the reader, the writer and the filter, with the facts
//! about single lines that their proofs rest on.
use vstd::prelude::*;
use crate::model::{ConfigView, ForwardView, ParseErrorView, ServerView, new_server};
use crate::parse::{ParseState, apply_directive, apply_line, directive, flush, group_comment};
use crate::parse::{host_decl, initial_state, last_index_of, parse_config, parse_forward, run};
use crate::parse::{step, step_trimmed, tag_words, tags_comment, annotation_start};
use crate::parse::{kw_dynamicforward, kw_forwardagent, kw_group, kw_host, kw_hostname};
use crate::parse::{kw_localforward, kw_port, kw_proxyjump, kw_tags, kw_user, kw_yes};
use crate::render::{dynamic_forward_line, forward_agent_line, global_line, group_line, host_line};
use crate::render::{hostname_line, indent, join_words, local_forward_line, port_line};
use crate::render::{proxy_jump_line, tags_line, user_line, annotation_lines, field_lines};
use crate::render::{global_lines, host_lines, opt_line, pair_lines, servers_lines};
use crate::render::{config_lines, render};
use crate::filter::{keep, select};
use crate::text::{Stop, all_digits, char_eq_ci, decimal, digit_char, digit_value, digits_value, eq_ci};
use crate::text::{is_ws, join_lines, lemma_rscan_at, lemma_scan_at, lines, parse_u16};
use crate::text::{is_digit, lemma_scan_bounds, scan, sign_len, stops, trim};

verus! {

/// No line feed in `s`.
pub open spec fn no_newline(s: Seq<char>) -> bool {
    forall|i: int| 0 <= i < s.len() ==> #[trigger] s[i] != '\n'
}

/// A non-empty run of characters that are not whitespace.
pub open spec fn is_word(s: Seq<char>) -> bool {
    s.len() > 0 && forall|i: int| 0 <= i < s.len() ==> !is_ws(#[trigger] s[i])
}

/// A word without `#`: what a group or a tag can be.
pub open spec fn is_name(s: Seq<char>) -> bool {
    is_word(s) && forall|i: int| 0 <= i < s.len() ==> #[trigger] s[i] != '#'
}

/// A non-empty value on one line that neither starts nor ends with
/// whitespace.
pub open spec fn is_value(s: Seq<char>) -> bool {
    s.len() > 0 && no_newline(s) && !is_ws(s[0]) && !is_ws(s.last())
}

proof fn lemma_run_concat(st: ParseState, a: Seq<Seq<char>>, b: Seq<Seq<char>>)
    ensures
        run(st, a + b) == match run(st, a) {
            Ok(s) => run(s, b),
            Err(e) => Err(e),
        },
    decreases a.len(),
{
    if a.len() == 0 {
        assert(a + b =~= b);
    } else {
        assert((a + b)[0] == a[0]);
        assert((a + b).drop_first() =~= a.drop_first() + b);
        match step(st, a[0]) {
            Ok(s2) => {
                lemma_run_concat(s2, a.drop_first(), b);
            },
            Err(e) => {},
        }
    }
}

proof fn lemma_run_one(st: ParseState, l: Seq<char>)
    ensures
        run(st, seq![l]) == step(st, l),
{
    assert(seq![l].drop_first() =~= Seq::<Seq<char>>::empty());
    match step(st, l) {
        Ok(s2) => {
            assert(run(s2, Seq::<Seq<char>>::empty()) == Ok::<ParseState, ParseErrorView>(s2));
        },
        Err(e) => {},
    }
}

/// Lines joined by line feeds split back into the same lines.
proof fn lemma_lines_join(ls: Seq<Seq<char>>)
    requires
        forall|i: int| 0 <= i < ls.len() ==> no_newline(#[trigger] ls[i]),
    ensures
        lines(join_lines(ls)) == ls,
    decreases ls.len(),
{
    if ls.len() == 0 {
        assert(join_lines(ls) =~= Seq::<char>::empty());
        assert(lines(Seq::<char>::empty()) =~= ls);
    } else {
        let t = join_lines(ls);
        let rest = ls.drop_first();
        let j = ls[0].len() as int;
        assert(no_newline(ls[0]));
        assert(t == ls[0] + seq!['\n'] + join_lines(rest));
        assert(t[j] == '\n');
        assert forall|k: int| 0 <= k < j implies !stops(Stop::Newline, #[trigger] t[k]) by {
            assert(t[k] == ls[0][k]);
        }
        lemma_scan_at(t, 0, j, Stop::Newline);
        assert(t.subrange(0, j) =~= ls[0]);
        assert(t.subrange(j + 1, t.len() as int) =~= join_lines(rest));
        assert forall|i: int| 0 <= i < rest.len() implies no_newline(#[trigger] rest[i]) by {
            assert(rest[i] == ls[i + 1]);
        }
        lemma_lines_join(rest);
        assert(ls =~= seq![ls[0]] + rest);
    }
}

/// Trimming removes exactly the whitespace before `core`.
proof fn lemma_trim_exact(pre: Seq<char>, core: Seq<char>)
    requires
        forall|i: int| 0 <= i < pre.len() ==> is_ws(#[trigger] pre[i]),
        core.len() > 0,
        !is_ws(core[0]),
        !is_ws(core.last()),
    ensures
        trim(pre + core) == core,
{
    let t = pre + core;
    assert forall|k: int| 0 <= k < pre.len() implies !stops(Stop::NonSpace, #[trigger] t[k]) by {
        assert(t[k] == pre[k]);
    }
    assert(t[pre.len() as int] == core[0]);
    lemma_scan_at(t, 0, pre.len() as int, Stop::NonSpace);
    assert(t[t.len() - 1] == core.last());
    lemma_rscan_at(t, t.len() as int, t.len() as int);
    assert(t.subrange(pre.len() as int, t.len() as int) =~= core);
}

proof fn lemma_trim_line(l: Seq<char>)
    requires
        l.len() > 0,
        !is_ws(l[0]),
        !is_ws(l.last()),
    ensures
        trim(l) == l,
{
    lemma_trim_exact(Seq::empty(), l);
    assert(Seq::<char>::empty() + l =~= l);
}

proof fn lemma_directive_of(key: Seq<char>, value: Seq<char>)
    requires
        is_word(key),
        is_value(value),
    ensures
        directive(key + seq![' '] + value) == Some((key, value)),
{
    let l = key + seq![' '] + value;
    let k = key.len() as int;
    assert forall|i: int| 0 <= i < k implies !stops(Stop::Space, #[trigger] l[i]) by {
        assert(l[i] == key[i]);
    }
    assert(l[k] == ' ');
    lemma_scan_at(l, 0, k, Stop::Space);
    assert(l[k + 1] == value[0]);
    lemma_scan_at(l, k, k + 1, Stop::NonSpace);
    assert(l.subrange(0, k) =~= key);
    assert(l.subrange(k + 1, l.len() as int) =~= value);
}

/// A whitespace character is no letter of `host`.
proof fn lemma_ws_not_letter(c: char, k: char)
    requires
        is_ws(c),
        'a' <= k <= 'z',
    ensures
        !char_eq_ci(c, k),
{
}

/// A line that starts with a word other than `host` declares no host.
proof fn lemma_no_host_decl(key: Seq<char>, rest: Seq<char>)
    requires
        is_word(key),
        !eq_ci(key, kw_host()),
        rest.len() > 0,
        is_ws(rest[0]),
    ensures
        host_decl(key + rest) is None,
{
    let l = key + rest;
    if l.len() > 4 {
        if key.len() < 4 {
            let s = l.subrange(0, 4);
            let n = key.len() as int;
            assert(s[n] == rest[0]);
            lemma_ws_not_letter(rest[0], kw_host()[n]);
        } else if key.len() == 4 {
            assert(l.subrange(0, 4) =~= key);
        } else {
            assert(l[4] == key[4]);
        }
    }
}

/// A line that does not start with `#` is no annotation.
proof fn lemma_not_annotation(l: Seq<char>)
    requires
        l.len() > 0,
        l[0] != '#',
    ensures
        group_comment(l) is None,
        tags_comment(l) is None,
{
}

proof fn lemma_decimal(n: nat)
    ensures
        decimal(n).len() > 0,
        all_digits(decimal(n)),
        digits_value(decimal(n)) == n,
    decreases n,
{
    let d = decimal(n);
    assert(digit_char(n % 10) as u32 == n % 10 + 48);
    if n < 10 {
        assert(d.drop_last() =~= Seq::<char>::empty());
        assert(digits_value(d.drop_last()) == 0);
        assert(d.last() == digit_char(n));
        assert(digit_value(d.last()) == n);
    } else {
        lemma_decimal(n / 10);
        assert(d.drop_last() =~= decimal(n / 10));
        assert(d.last() == digit_char(n % 10));
        assert(digit_value(d.last()) == n % 10);
        assert((n / 10) * 10 + n % 10 == n) by (nonlinear_arith);
    }
}

proof fn lemma_parse_decimal(p: u16)
    ensures
        parse_u16(decimal(p as nat)) == Some(p),
{
    let d = decimal(p as nat);
    lemma_decimal(p as nat);
    assert(sign_len(d) == 0);
    assert(d.subrange(0, d.len() as int) =~= d);
}

proof fn lemma_last_index(s: Seq<char>, c: char, k: int, j: int)
    requires
        0 <= k < j <= s.len(),
        s[k] == c,
        forall|m: int| k < m < j ==> #[trigger] s[m] != c,
    ensures
        last_index_of(s, c, j) == k,
    decreases j,
{
    if j - 1 != k {
        lemma_last_index(s, c, k, j - 1);
    }
}

/// `<local_port> <remote_host>:<remote_port>`
pub open spec fn forward_value(f: ForwardView) -> Seq<char> {
    decimal(f.local_port as nat) + seq![' '] + f.remote_host + seq![':'] + decimal(
        f.remote_port as nat,
    )
}

proof fn lemma_parse_forward(f: ForwardView)
    ensures
        parse_forward(forward_value(f)) == Some(f),
{
    let dl = decimal(f.local_port as nat);
    let dr = decimal(f.remote_port as nat);
    let rh = f.remote_host;
    let v = forward_value(f);
    lemma_decimal(f.local_port as nat);
    lemma_decimal(f.remote_port as nat);
    let i = dl.len() as int;
    assert forall|k: int| 0 <= k < i implies !stops(Stop::Space, #[trigger] v[k]) by {
        assert(v[k] == dl[k]);
    }
    assert(v[i] == ' ');
    lemma_scan_at(v, 0, i, Stop::Space);
    let rest = v.subrange(i + 1, v.len() as int);
    assert(rest =~= rh + seq![':'] + dr);
    let c = rh.len() as int;
    assert(rest[c] == ':');
    assert forall|m: int| c < m < rest.len() implies #[trigger] rest[m] != ':' by {
        assert(rest[m] == dr[m - c - 1]);
    }
    lemma_last_index(rest, ':', c, rest.len() as int);
    assert(v.subrange(0, i) =~= dl);
    assert(rest.subrange(c + 1, rest.len() as int) =~= dr);
    assert(rest.subrange(0, c) =~= rh);
    lemma_parse_decimal(f.local_port);
    lemma_parse_decimal(f.remote_port);
}

proof fn lemma_join_words_first(ts: Seq<Seq<char>>)
    requires
        ts.len() > 1,
    ensures
        join_words(ts) == ts[0] + seq![' '] + join_words(ts.drop_first()),
    decreases ts.len(),
{
    if ts.len() == 2 {
        assert(ts.drop_last().len() == 1);
        assert(ts.drop_first().len() == 1);
        assert(join_words(ts.drop_last()) == ts[0]);
        assert(ts.drop_first()[0] == ts[1]);
        assert(join_words(ts.drop_first()) == ts[1]);
        assert(ts.last() == ts[1]);
    } else {
        lemma_join_words_first(ts.drop_last());
        assert(ts.drop_first().drop_last() =~= ts.drop_last().drop_first());
        assert(join_words(ts) =~= ts[0] + seq![' '] + join_words(ts.drop_first()));
    }
}

/// The words of `join_words(ts)` are `ts` again.
proof fn lemma_tag_words(l: Seq<char>, i: int, ts: Seq<Seq<char>>)
    requires
        0 <= i <= l.len(),
        l.subrange(i, l.len() as int) == join_words(ts),
        ts.len() > 0,
        forall|k: int| 0 <= k < ts.len() ==> is_name(#[trigger] ts[k]),
    ensures
        tag_words(l, i) == ts,
    decreases ts.len(),
{
    let w = ts[0];
    assert(is_name(w));
    let e = i + w.len();
    if ts.len() == 1 {
        assert(join_words(ts) == w);
    } else {
        lemma_join_words_first(ts);
    }
    assert(l.subrange(i, l.len() as int).subrange(0, w.len() as int) =~= w);
    assert forall|k: int| i <= k < e implies !stops(Stop::SpaceOrHash, #[trigger] l[k]) by {
        assert(l[k] == l.subrange(i, l.len() as int)[k - i]);
        assert(l[k] == w[k - i]);
    }
    assert(l[i] == w[0]);
    lemma_scan_at(l, i, i, Stop::NonSpace);
    if ts.len() == 1 {
        assert(e == l.len());
        lemma_scan_at(l, i, e, Stop::SpaceOrHash);
        lemma_scan_at(l, e, e, Stop::NonSpace);
        assert(l.subrange(i, e) =~= w);
        assert(tag_words(l, e) =~= Seq::<Seq<char>>::empty());
        assert(tag_words(l, i) =~= ts);
    } else {
        let rest = ts.drop_first();
        assert(l[e] == l.subrange(i, l.len() as int)[w.len() as int]);
        assert(l[e] == ' ');
        lemma_scan_at(l, i, e, Stop::SpaceOrHash);
        assert(l.subrange(i, e) =~= w);
        let sub = l.subrange(i, l.len() as int);
        assert(sub == w + seq![' '] + join_words(rest));
        assert(sub.subrange(w.len() as int + 1, sub.len() as int) =~= join_words(rest));
        assert(l.subrange(e + 1, l.len() as int) =~= sub.subrange(w.len() as int + 1, sub.len() as int));
        assert forall|k: int| 0 <= k < rest.len() implies is_name(#[trigger] rest[k]) by {
            assert(rest[k] == ts[k + 1]);
        }
        lemma_tag_words(l, e + 1, rest);
        assert(scan(l, e, Stop::NonSpace) == scan(l, e + 1, Stop::NonSpace));
        assert(tag_words(l, e) == tag_words(l, e + 1));
        assert(tag_words(l, i) =~= ts);
    }
}

/// `st` with `x` as the host block under construction.
pub open spec fn with_current(st: ParseState, x: ServerView) -> ParseState {
    ParseState { current: Some(x), ..st }
}

proof fn lemma_indent_ws()
    ensures
        forall|i: int| 0 <= i < indent().len() ==> is_ws(#[trigger] indent()[i]),
{
}

/// An indented directive line of a named block applies its directive.
proof fn lemma_step_directive(st: ParseState, key: Seq<char>, value: Seq<char>, x2: ServerView)
    requires
        st.current is Some,
        !st.in_global,
        is_word(key),
        key[0] != '#',
        !eq_ci(key, kw_host()),
        is_value(value),
        apply_directive(st.current->0, key, value) == Ok::<ServerView, ParseErrorView>(x2),
    ensures
        step(st, indent() + key + seq![' '] + value) == Ok::<ParseState, ParseErrorView>(
            with_current(st, x2),
        ),
{
    let core = key + seq![' '] + value;
    assert(indent() + key + seq![' '] + value =~= indent() + core);
    assert(core[0] == key[0]);
    assert(core.last() == value.last());
    lemma_indent_ws();
    lemma_trim_exact(indent(), core);
    assert(key + (seq![' '] + value) =~= core);
    lemma_no_host_decl(key, seq![' '] + value);
    lemma_not_annotation(core);
    lemma_directive_of(key, value);
}

proof fn lemma_user_step(st: ParseState, u: Seq<char>)
    requires
        st.current is Some,
        !st.in_global,
        is_value(u),
    ensures
        step(st, user_line(u)) == Ok::<ParseState, ParseErrorView>(
            with_current(st, ServerView { user: u, ..st.current->0 }),
        ),
{
    let key = seq!['U', 's', 'e', 'r'];
    assert(user_line(u) =~= indent() + key + seq![' '] + u);
    assert(eq_ci(key, kw_user()));
    assert(!char_eq_ci(key[0], kw_host()[0]));
    lemma_step_directive(st, key, u, ServerView { user: u, ..st.current->0 });
}

proof fn lemma_hostname_step(st: ParseState, h: Seq<char>)
    requires
        st.current is Some,
        !st.in_global,
        is_value(h),
    ensures
        step(st, hostname_line(h)) == Ok::<ParseState, ParseErrorView>(
            with_current(st, ServerView { hostname: h, ..st.current->0 }),
        ),
{
    let key = seq!['H', 'o', 's', 't', 'n', 'a', 'm', 'e'];
    assert(hostname_line(h) =~= indent() + key + seq![' '] + h);
    assert(eq_ci(key, kw_hostname()));
    lemma_step_directive(st, key, h, ServerView { hostname: h, ..st.current->0 });
}

proof fn lemma_decimal_value(n: nat)
    ensures
        is_value(decimal(n)),
        forall|i: int| 0 <= i < decimal(n).len() ==> is_digit(#[trigger] decimal(n)[i]),
{
    lemma_decimal(n);
    let d = decimal(n);
    assert(is_digit(d[0]));
    assert(is_digit(d[d.len() - 1]));
}

proof fn lemma_port_step(st: ParseState, p: u16)
    requires
        st.current is Some,
        !st.in_global,
        p >= 1,
    ensures
        step(st, port_line(p)) == Ok::<ParseState, ParseErrorView>(
            with_current(st, ServerView { port: p, ..st.current->0 }),
        ),
{
    let key = seq!['P', 'o', 'r', 't'];
    assert(port_line(p) =~= indent() + key + seq![' '] + decimal(p as nat));
    assert(eq_ci(key, kw_port()));
    assert(!char_eq_ci(key[0], kw_user()[0]));
    assert(!char_eq_ci(key[0], kw_host()[0]));
    lemma_decimal_value(p as nat);
    lemma_parse_decimal(p);
    lemma_step_directive(st, key, decimal(p as nat), ServerView { port: p, ..st.current->0 });
}

proof fn lemma_forward_agent_step(st: ParseState)
    requires
        st.current is Some,
        !st.in_global,
    ensures
        step(st, forward_agent_line()) == Ok::<ParseState, ParseErrorView>(
            with_current(st, ServerView { forward_agent: true, ..st.current->0 }),
        ),
{
    let key = seq!['F', 'o', 'r', 'w', 'a', 'r', 'd', 'A', 'g', 'e', 'n', 't'];
    let yes = seq!['y', 'e', 's'];
    assert(forward_agent_line() =~= indent() + key + seq![' '] + yes);
    assert(eq_ci(key, kw_forwardagent()));
    assert(eq_ci(yes, kw_yes()));
    lemma_step_directive(st, key, yes, ServerView { forward_agent: true, ..st.current->0 });
}

proof fn lemma_dynamic_forward_step(st: ParseState, d: Seq<char>)
    requires
        st.current is Some,
        !st.in_global,
        is_value(d),
    ensures
        step(st, dynamic_forward_line(d)) == Ok::<ParseState, ParseErrorView>(
            with_current(st, ServerView { dynamic_forward: Some(d), ..st.current->0 }),
        ),
{
    let key = seq!['D', 'y', 'n', 'a', 'm', 'i', 'c', 'F', 'o', 'r', 'w', 'a', 'r', 'd'];
    assert(dynamic_forward_line(d) =~= indent() + key + seq![' '] + d);
    assert(eq_ci(key, kw_dynamicforward()));
    lemma_step_directive(st, key, d, ServerView { dynamic_forward: Some(d), ..st.current->0 });
}

proof fn lemma_local_forward_step(st: ParseState, f: ForwardView)
    requires
        st.current is Some,
        !st.in_global,
        no_newline(f.remote_host),
    ensures
        step(st, local_forward_line(f)) == Ok::<ParseState, ParseErrorView>(
            with_current(st, ServerView { local_forward: Some(f), ..st.current->0 }),
        ),
{
    let key = seq!['L', 'o', 'c', 'a', 'l', 'F', 'o', 'r', 'w', 'a', 'r', 'd'];
    let v = forward_value(f);
    assert(local_forward_line(f) =~= indent() + key + seq![' '] + v);
    assert(eq_ci(key, kw_localforward()));
    assert(!char_eq_ci(key[0], kw_forwardagent()[0]));
    lemma_decimal_value(f.local_port as nat);
    lemma_decimal_value(f.remote_port as nat);
    let dl = decimal(f.local_port as nat);
    let dr = decimal(f.remote_port as nat);
    assert(v[0] == dl[0]);
    assert(v.last() == dr.last());
    assert forall|i: int| 0 <= i < v.len() implies #[trigger] v[i] != '\n' by {
        if i < dl.len() {
            assert(v[i] == dl[i]);
        } else if dl.len() + 1 <= i < dl.len() + 1 + f.remote_host.len() {
            assert(v[i] == f.remote_host[i - dl.len() - 1]);
        } else if i >= dl.len() + 2 + f.remote_host.len() {
            assert(v[i] == dr[i - dl.len() - 2 - f.remote_host.len()]);
        }
    }
    lemma_parse_forward(f);
    lemma_step_directive(st, key, v, ServerView { local_forward: Some(f), ..st.current->0 });
}

proof fn lemma_proxy_jump_step(st: ParseState, p: Seq<char>)
    requires
        st.current is Some,
        !st.in_global,
        is_value(p),
    ensures
        step(st, proxy_jump_line(p)) == Ok::<ParseState, ParseErrorView>(
            with_current(st, ServerView { proxy_jump: Some(p), ..st.current->0 }),
        ),
{
    let key = seq!['P', 'r', 'o', 'x', 'y', 'J', 'u', 'm', 'p'];
    assert(proxy_jump_line(p) =~= indent() + key + seq![' '] + p);
    assert(eq_ci(key, kw_proxyjump()));
    lemma_step_directive(st, key, p, ServerView { proxy_jump: Some(p), ..st.current->0 });
}

proof fn lemma_group_step(st: ParseState, g: Seq<char>)
    requires
        st.current is Some,
        !st.in_global,
        is_name(g),
    ensures
        step(st, group_line(g)) == Ok::<ParseState, ParseErrorView>(
            with_current(st, ServerView { group: g, ..st.current->0 }),
        ),
{
    let l = group_line(g);
    let n = l.len() as int;
    assert(l[0] == '#');
    assert(l.last() == g.last());
    lemma_trim_line(l);
    assert(!char_eq_ci(l.subrange(0, 4)[0], kw_host()[0]));
    assert(l[1] == ' ');
    assert(l[2] == 'G');
    lemma_scan_at(l, 1, 2, Stop::NonSpace);
    assert(l.subrange(2, 7) =~= seq!['G', 'r', 'o', 'u', 'p']);
    assert(eq_ci(l.subrange(2, 7), kw_group()));
    assert(l[7] == ' ');
    assert(annotation_start(l, kw_group()) == Some(7int));
    assert(l[8] == g[0]);
    lemma_scan_at(l, 7, 8, Stop::NonSpace);
    assert forall|k: int| 8 <= k < n implies !stops(Stop::SpaceOrHash, #[trigger] l[k]) by {
        assert(l[k] == g[k - 8]);
    }
    lemma_scan_at(l, 8, n, Stop::SpaceOrHash);
    assert(l.subrange(8, n) =~= g);
    assert(group_comment(l) == Some(g));
}

proof fn lemma_join_words_ends(ts: Seq<Seq<char>>)
    requires
        ts.len() > 0,
        forall|k: int| 0 <= k < ts.len() ==> is_name(#[trigger] ts[k]),
    ensures
        join_words(ts).len() > 0,
        join_words(ts)[0] == ts[0][0],
        join_words(ts).last() == ts.last().last(),
        no_newline(join_words(ts)),
    decreases ts.len(),
{
    assert(is_name(ts[0]));
    assert(is_name(ts.last()));
    if ts.len() > 1 {
        let init = ts.drop_last();
        assert forall|k: int| 0 <= k < init.len() implies is_name(#[trigger] init[k]) by {
            assert(init[k] == ts[k]);
        }
        lemma_join_words_ends(init);
        let j = join_words(ts);
        let ji = join_words(init);
        assert(j == ji + seq![' '] + ts.last());
        assert(j[0] == ji[0]);
        assert forall|i: int| 0 <= i < j.len() implies #[trigger] j[i] != '\n' by {
            if i < ji.len() {
                assert(j[i] == ji[i]);
            } else if i > ji.len() {
                assert(j[i] == ts.last()[i - ji.len() - 1]);
            }
        }
    }
}

proof fn lemma_tags_step(st: ParseState, ts: Seq<Seq<char>>)
    requires
        st.current is Some,
        !st.in_global,
        ts.len() > 0,
        forall|k: int| 0 <= k < ts.len() ==> is_name(#[trigger] ts[k]),
    ensures
        step(st, tags_line(ts)) == Ok::<ParseState, ParseErrorView>(
            with_current(st, ServerView { tags: ts, ..st.current->0 }),
        ),
{
    let l = tags_line(ts);
    let jw = join_words(ts);
    lemma_join_words_ends(ts);
    assert(is_name(ts[0]));
    assert(is_name(ts.last()));
    assert(l[0] == '#');
    assert(l.last() == jw.last());
    lemma_trim_line(l);
    assert(!char_eq_ci(l.subrange(0, 4)[0], kw_host()[0]));
    assert(l[1] == ' ');
    assert(l[2] == 'T');
    lemma_scan_at(l, 1, 2, Stop::NonSpace);
    assert(!char_eq_ci(l.subrange(2, 7)[0], kw_group()[0]));
    assert(group_comment(l) is None);
    assert(l.subrange(2, 6) =~= seq!['T', 'a', 'g', 's']);
    assert(eq_ci(l.subrange(2, 6), kw_tags()));
    assert(l[6] == ' ');
    assert(annotation_start(l, kw_tags()) == Some(6int));
    assert(l[7] == jw[0]);
    lemma_scan_at(l, 6, 7, Stop::NonSpace);
    assert(l.subrange(7, l.len() as int) =~= jw);
    lemma_tag_words(l, 7, ts);
    assert(tags_comment(l) == Some(ts));
}

proof fn lemma_host_step(st: ParseState, tag: Seq<char>)
    requires
        is_word(tag),
    ensures
        step(st, host_line(tag)) == step_trimmed(st, host_line(tag)),
        host_decl(host_line(tag)) == Some(tag),
{
    let l = host_line(tag);
    let n = l.len() as int;
    assert(l[0] == 'H');
    assert(l.last() == tag.last());
    lemma_trim_line(l);
    assert(l.subrange(0, 4) =~= seq!['H', 'o', 's', 't']);
    assert(eq_ci(l.subrange(0, 4), kw_host()));
    assert(l[4] == ' ');
    assert(l[5] == tag[0]);
    lemma_scan_at(l, 4, 5, Stop::NonSpace);
    assert forall|k: int| 5 <= k < n implies !stops(Stop::Space, #[trigger] l[k]) by {
        assert(l[k] == tag[k - 5]);
    }
    lemma_scan_at(l, 5, n, Stop::Space);
    assert(l.subrange(5, n) =~= tag);
}

proof fn lemma_blank_step(st: ParseState)
    ensures
        step(st, Seq::<char>::empty()) == Ok::<ParseState, ParseErrorView>(st),
{
    assert(trim(Seq::<char>::empty()) =~= Seq::<char>::empty());
}

/// What a pair of the wildcard block must be to be written and read back.
pub open spec fn writable_pair(kv: (Seq<char>, Seq<char>)) -> bool {
    is_word(kv.0) && !eq_ci(kv.0, kw_host()) && is_value(kv.1)
}

proof fn lemma_global_step(st: ParseState, kv: (Seq<char>, Seq<char>))
    requires
        st.in_global,
        writable_pair(kv),
    ensures
        step(st, global_line(kv)) == Ok::<ParseState, ParseErrorView>(
            ParseState { global: st.global.push(kv), ..st },
        ),
{
    let core = kv.0 + seq![' '] + kv.1;
    assert(global_line(kv) =~= indent() + core);
    assert(core[0] == kv.0[0]);
    assert(core.last() == kv.1.last());
    lemma_indent_ws();
    lemma_trim_exact(indent(), core);
    assert(kv.0 + (seq![' '] + kv.1) =~= core);
    lemma_no_host_decl(kv.0, seq![' '] + kv.1);
    lemma_directive_of(kv.0, kv.1);
}

/// What a host record must be to be written and read back: a tag that is
/// one word other than `*`, values on one line without surrounding
/// whitespace, a port from 1 up, and a group and tags that are words
/// without `#`.
pub open spec fn writable_server(h: ServerView) -> bool {
    &&& is_word(h.host_tag)
    &&& h.host_tag != seq!['*']
    &&& (h.user.len() > 0 ==> is_value(h.user))
    &&& (h.hostname.len() > 0 ==> is_value(h.hostname))
    &&& h.port >= 1
    &&& (h.dynamic_forward is Some ==> is_value(h.dynamic_forward->0))
    &&& (h.local_forward is Some ==> no_newline(h.local_forward->0.remote_host))
    &&& (h.proxy_jump is Some ==> is_value(h.proxy_jump->0))
    &&& (h.group.len() > 0 ==> is_name(h.group))
    &&& forall|i: int| 0 <= i < h.tags.len() ==> is_name(#[trigger] h.tags[i])
}

/// A configuration whose every pair and host record can be written and
/// read back.
pub open spec fn writable(c: ConfigView) -> bool {
    &&& forall|i: int| 0 <= i < c.global.len() ==> writable_pair(#[trigger] c.global[i])
    &&& forall|i: int| 0 <= i < c.servers.len() ==> writable_server(#[trigger] c.servers[i])
}

proof fn lemma_opt_step(st: ParseState, present: bool, l: Seq<char>, x2: ServerView)
    requires
        present ==> step(st, l) == Ok::<ParseState, ParseErrorView>(with_current(st, x2)),
        !present ==> st.current == Some(x2),
    ensures
        run(st, opt_line(present, l)) == Ok::<ParseState, ParseErrorView>(with_current(st, x2)),
{
    if present {
        lemma_run_one(st, l);
    } else {
        assert(with_current(st, x2) == st);
    }
}

proof fn lemma_field_lines(st: ParseState, h: ServerView)
    requires
        st.current == Some(new_server(h.host_tag)),
        !st.in_global,
        writable_server(h),
    ensures
        run(st, field_lines(h)) == Ok::<ParseState, ParseErrorView>(
            with_current(st, ServerView { group: Seq::empty(), tags: Seq::empty(), ..h }),
        ),
{
    let x0 = new_server(h.host_tag);
    let x1 = ServerView { user: h.user, ..x0 };
    let x2 = ServerView { hostname: h.hostname, ..x1 };
    let x3 = ServerView { port: h.port, ..x2 };
    let x4 = ServerView { forward_agent: h.forward_agent, ..x3 };
    let x5 = ServerView { dynamic_forward: h.dynamic_forward, ..x4 };
    let x6 = ServerView { local_forward: h.local_forward, ..x5 };
    let x7 = ServerView { proxy_jump: h.proxy_jump, ..x6 };
    let l1 = opt_line(h.user.len() > 0, user_line(h.user));
    let l2 = opt_line(h.hostname.len() > 0, hostname_line(h.hostname));
    let l3 = opt_line(h.port != 22, port_line(h.port));
    let l4 = opt_line(h.forward_agent, forward_agent_line());
    let l5 = opt_line(h.dynamic_forward is Some, dynamic_forward_line(h.dynamic_forward->0));
    let l6 = opt_line(h.local_forward is Some, local_forward_line(h.local_forward->0));
    let l7 = opt_line(h.proxy_jump is Some, proxy_jump_line(h.proxy_jump->0));

    if h.user.len() > 0 {
        lemma_user_step(st, h.user);
    } else {
        assert(h.user =~= Seq::<char>::empty());
    }
    lemma_opt_step(st, h.user.len() > 0, user_line(h.user), x1);
    let s1 = with_current(st, x1);

    if h.hostname.len() > 0 {
        lemma_hostname_step(s1, h.hostname);
    } else {
        assert(h.hostname =~= Seq::<char>::empty());
    }
    lemma_opt_step(s1, h.hostname.len() > 0, hostname_line(h.hostname), x2);
    let s2 = with_current(st, x2);
    lemma_run_concat(st, l1, l2);

    if h.port != 22 {
        lemma_port_step(s2, h.port);
    }
    lemma_opt_step(s2, h.port != 22, port_line(h.port), x3);
    let s3 = with_current(st, x3);
    lemma_run_concat(st, l1 + l2, l3);

    if h.forward_agent {
        lemma_forward_agent_step(s3);
    }
    lemma_opt_step(s3, h.forward_agent, forward_agent_line(), x4);
    let s4 = with_current(st, x4);
    lemma_run_concat(st, l1 + l2 + l3, l4);

    if h.dynamic_forward is Some {
        lemma_dynamic_forward_step(s4, h.dynamic_forward->0);
    }
    lemma_opt_step(
        s4,
        h.dynamic_forward is Some,
        dynamic_forward_line(h.dynamic_forward->0),
        x5,
    );
    let s5 = with_current(st, x5);
    lemma_run_concat(st, l1 + l2 + l3 + l4, l5);

    if h.local_forward is Some {
        lemma_local_forward_step(s5, h.local_forward->0);
    }
    lemma_opt_step(s5, h.local_forward is Some, local_forward_line(h.local_forward->0), x6);
    let s6 = with_current(st, x6);
    lemma_run_concat(st, l1 + l2 + l3 + l4 + l5, l6);

    if h.proxy_jump is Some {
        lemma_proxy_jump_step(s6, h.proxy_jump->0);
    }
    lemma_opt_step(s6, h.proxy_jump is Some, proxy_jump_line(h.proxy_jump->0), x7);
    lemma_run_concat(st, l1 + l2 + l3 + l4 + l5 + l6, l7);
    assert(x7 == ServerView { group: Seq::empty(), tags: Seq::empty(), ..h });
}

proof fn lemma_annotation_lines(st: ParseState, h: ServerView)
    requires
        st.current == Some(ServerView { group: Seq::empty(), tags: Seq::empty(), ..h }),
        !st.in_global,
        writable_server(h),
    ensures
        run(st, annotation_lines(h)) == Ok::<ParseState, ParseErrorView>(with_current(st, h)),
{
    let x7 = ServerView { group: Seq::empty(), tags: Seq::empty(), ..h };
    let x8 = ServerView { group: h.group, ..x7 };
    let l8 = opt_line(h.group.len() > 0, group_line(h.group));
    let l9 = opt_line(h.tags.len() > 0, tags_line(h.tags));
    if h.group.len() > 0 {
        lemma_group_step(st, h.group);
    } else {
        assert(h.group =~= Seq::<char>::empty());
    }
    lemma_opt_step(st, h.group.len() > 0, group_line(h.group), x8);
    let s8 = with_current(st, x8);
    if h.tags.len() > 0 {
        lemma_tags_step(s8, h.tags);
    } else {
        assert(h.tags =~= Seq::<Seq<char>>::empty());
    }
    lemma_opt_step(s8, h.tags.len() > 0, tags_line(h.tags), h);
    lemma_run_concat(st, l8, l9);
}

/// Reading a host block declares its host, after the one before is kept.
proof fn lemma_host_block(st: ParseState, h: ServerView)
    requires
        writable_server(h),
    ensures
        run(st, host_lines(h)) == Ok::<ParseState, ParseErrorView>(
            ParseState {
                global: st.global,
                servers: flush(st.servers, st.current),
                current: Some(h),
                in_global: false,
            },
        ),
{
    let s1 = ParseState {
        global: st.global,
        servers: flush(st.servers, st.current),
        current: Some(new_server(h.host_tag)),
        in_global: false,
    };
    let head = seq![host_line(h.host_tag)];
    let blank = seq![Seq::<char>::empty()];
    lemma_host_step(st, h.host_tag);
    lemma_run_one(st, host_line(h.host_tag));
    lemma_field_lines(s1, h);
    let s7 = with_current(s1, ServerView { group: Seq::empty(), tags: Seq::empty(), ..h });
    lemma_annotation_lines(s7, h);
    let s9 = with_current(s1, h);
    lemma_blank_step(s9);
    lemma_run_one(s9, Seq::<char>::empty());
    lemma_run_concat(st, head, field_lines(h));
    lemma_run_concat(st, head + field_lines(h), annotation_lines(h));
    lemma_run_concat(st, head + field_lines(h) + annotation_lines(h), blank);
}

/// Reading the pair lines of the wildcard block appends the pairs.
proof fn lemma_pair_lines(st: ParseState, gs: Seq<(Seq<char>, Seq<char>)>)
    requires
        st.in_global,
        forall|i: int| 0 <= i < gs.len() ==> writable_pair(#[trigger] gs[i]),
    ensures
        run(st, pair_lines(gs)) == Ok::<ParseState, ParseErrorView>(
            ParseState { global: st.global + gs, ..st },
        ),
    decreases gs.len(),
{
    if gs.len() == 0 {
        assert(pair_lines(gs) =~= Seq::<Seq<char>>::empty());
        assert(st.global + gs =~= st.global);
    } else {
        let init = gs.drop_last();
        assert forall|i: int| 0 <= i < init.len() implies writable_pair(#[trigger] init[i]) by {
            assert(init[i] == gs[i]);
        }
        lemma_pair_lines(st, init);
        assert(pair_lines(gs) =~= pair_lines(init) + seq![global_line(gs.last())]);
        lemma_run_concat(st, pair_lines(init), seq![global_line(gs.last())]);
        let s = ParseState { global: st.global + init, ..st };
        assert(writable_pair(gs[gs.len() - 1]));
        lemma_global_step(s, gs.last());
        lemma_run_one(s, global_line(gs.last()));
        assert((st.global + init).push(gs.last()) =~= st.global + gs);
    }
}

proof fn lemma_global_lines(gs: Seq<(Seq<char>, Seq<char>)>)
    requires
        forall|i: int| 0 <= i < gs.len() ==> writable_pair(#[trigger] gs[i]),
    ensures
        run(initial_state(), global_lines(gs)) == Ok::<ParseState, ParseErrorView>(
            ParseState {
                global: gs,
                servers: Seq::empty(),
                current: None,
                in_global: gs.len() > 0,
            },
        ),
{
    let st = initial_state();
    if gs.len() == 0 {
        assert(gs =~= Seq::<(Seq<char>, Seq<char>)>::empty());
    } else {
        let star = seq!['*'];
        let head = seq![host_line(star)];
        let blank = seq![Seq::<char>::empty()];
        let s1 = ParseState {
            global: Seq::empty(),
            servers: Seq::empty(),
            current: None,
            in_global: true,
        };
        lemma_host_step(st, star);
        lemma_run_one(st, host_line(star));
        lemma_pair_lines(s1, gs);
        let s2 = ParseState { global: Seq::empty() + gs, ..s1 };
        assert(Seq::<(Seq<char>, Seq<char>)>::empty() + gs =~= gs);
        lemma_blank_step(s2);
        lemma_run_one(s2, Seq::<char>::empty());
        lemma_run_concat(st, head, pair_lines(gs));
        lemma_run_concat(st, head + pair_lines(gs), blank);
    }
}

/// Reading the host blocks of `ss` leaves the last one under construction
/// and the others kept, in order.
proof fn lemma_servers_lines(st: ParseState, ss: Seq<ServerView>)
    requires
        st.servers == Seq::<ServerView>::empty(),
        st.current is None,
        forall|i: int| 0 <= i < ss.len() ==> writable_server(#[trigger] ss[i]),
    ensures
        run(st, servers_lines(ss)) == Ok::<ParseState, ParseErrorView>(
            if ss.len() == 0 {
                st
            } else {
                ParseState {
                    global: st.global,
                    servers: ss.drop_last(),
                    current: Some(ss.last()),
                    in_global: false,
                }
            },
        ),
    decreases ss.len(),
{
    if ss.len() > 0 {
        let init = ss.drop_last();
        assert forall|i: int| 0 <= i < init.len() implies writable_server(#[trigger] init[i]) by {
            assert(init[i] == ss[i]);
        }
        lemma_servers_lines(st, init);
        lemma_run_concat(st, servers_lines(init), host_lines(ss.last()));
        assert(writable_server(ss[ss.len() - 1]));
        if init.len() == 0 {
            lemma_host_block(st, ss.last());
            assert(ss.drop_last() =~= Seq::<ServerView>::empty());
        } else {
            let s = ParseState {
                global: st.global,
                servers: init.drop_last(),
                current: Some(init.last()),
                in_global: false,
            };
            lemma_host_block(s, ss.last());
            assert(init.drop_last().push(init.last()) =~= init);
        }
    }
}

/// No line of `ls` holds a line feed.
pub open spec fn single_lines(ls: Seq<Seq<char>>) -> bool {
    forall|i: int| 0 <= i < ls.len() ==> no_newline(#[trigger] ls[i])
}

proof fn lemma_single_add(a: Seq<Seq<char>>, b: Seq<Seq<char>>)
    requires
        single_lines(a),
        single_lines(b),
    ensures
        single_lines(a + b),
{
    assert forall|i: int| 0 <= i < (a + b).len() implies no_newline(#[trigger] (a + b)[i]) by {
        if i < a.len() {
            assert((a + b)[i] == a[i]);
        } else {
            assert((a + b)[i] == b[i - a.len()]);
        }
    }
}

proof fn lemma_no_newline_add(a: Seq<char>, b: Seq<char>)
    requires
        no_newline(a),
        no_newline(b),
    ensures
        no_newline(a + b),
{
    assert forall|i: int| 0 <= i < (a + b).len() implies #[trigger] (a + b)[i] != '\n' by {
        if i < a.len() {
            assert((a + b)[i] == a[i]);
        } else {
            assert((a + b)[i] == b[i - a.len()]);
        }
    }
}

proof fn lemma_word_single(s: Seq<char>)
    requires
        is_word(s),
    ensures
        no_newline(s),
{
    assert forall|i: int| 0 <= i < s.len() implies #[trigger] s[i] != '\n' by {
        assert(!is_ws(s[i]));
    }
}

proof fn lemma_opt_single(present: bool, l: Seq<char>)
    requires
        present ==> no_newline(l),
    ensures
        single_lines(opt_line(present, l)),
{
}

proof fn lemma_field_lines_single(h: ServerView)
    requires
        writable_server(h),
    ensures
        single_lines(field_lines(h)),
{
    let ind = indent();
    if h.user.len() > 0 {
        lemma_no_newline_add(ind + seq!['U', 's', 'e', 'r', ' '], h.user);
    }
    let l1 = opt_line(h.user.len() > 0, user_line(h.user));
    lemma_opt_single(h.user.len() > 0, user_line(h.user));
    if h.hostname.len() > 0 {
        lemma_no_newline_add(
            ind + seq!['H', 'o', 's', 't', 'n', 'a', 'm', 'e', ' '],
            h.hostname,
        );
    }
    let l2 = opt_line(h.hostname.len() > 0, hostname_line(h.hostname));
    lemma_opt_single(h.hostname.len() > 0, hostname_line(h.hostname));
    lemma_single_add(l1, l2);
    lemma_decimal_value(h.port as nat);
    lemma_no_newline_add(ind + seq!['P', 'o', 'r', 't', ' '], decimal(h.port as nat));
    let l3 = opt_line(h.port != 22, port_line(h.port));
    lemma_opt_single(h.port != 22, port_line(h.port));
    lemma_single_add(l1 + l2, l3);
    let l4 = opt_line(h.forward_agent, forward_agent_line());
    lemma_opt_single(h.forward_agent, forward_agent_line());
    lemma_single_add(l1 + l2 + l3, l4);
    if h.dynamic_forward is Some {
        lemma_no_newline_add(
            ind + seq!['D', 'y', 'n', 'a', 'm', 'i', 'c', 'F', 'o', 'r', 'w', 'a', 'r', 'd', ' '],
            h.dynamic_forward->0,
        );
    }
    let l5 = opt_line(h.dynamic_forward is Some, dynamic_forward_line(h.dynamic_forward->0));
    lemma_opt_single(h.dynamic_forward is Some, dynamic_forward_line(h.dynamic_forward->0));
    lemma_single_add(l1 + l2 + l3 + l4, l5);
    if h.local_forward is Some {
        lemma_local_forward_line_single(h.local_forward->0);
    }
    let l6 = opt_line(h.local_forward is Some, local_forward_line(h.local_forward->0));
    lemma_opt_single(h.local_forward is Some, local_forward_line(h.local_forward->0));
    lemma_single_add(l1 + l2 + l3 + l4 + l5, l6);
    if h.proxy_jump is Some {
        lemma_no_newline_add(
            ind + seq!['P', 'r', 'o', 'x', 'y', 'J', 'u', 'm', 'p', ' '],
            h.proxy_jump->0,
        );
    }
    let l7 = opt_line(h.proxy_jump is Some, proxy_jump_line(h.proxy_jump->0));
    lemma_opt_single(h.proxy_jump is Some, proxy_jump_line(h.proxy_jump->0));
    lemma_single_add(l1 + l2 + l3 + l4 + l5 + l6, l7);
}

proof fn lemma_local_forward_line_single(f: ForwardView)
    requires
        no_newline(f.remote_host),
    ensures
        no_newline(local_forward_line(f)),
{
    lemma_decimal_value(f.local_port as nat);
    lemma_decimal_value(f.remote_port as nat);
    let lead = indent() + seq!['L', 'o', 'c', 'a', 'l', 'F', 'o', 'r', 'w', 'a', 'r', 'd', ' '];
    lemma_no_newline_add(lead, decimal(f.local_port as nat));
    let with_local = lead + decimal(f.local_port as nat);
    lemma_no_newline_add(with_local, seq![' ']);
    lemma_no_newline_add(with_local + seq![' '], f.remote_host);
    lemma_no_newline_add(with_local + seq![' '] + f.remote_host, seq![':']);
    lemma_no_newline_add(with_local + seq![' '] + f.remote_host + seq![':'], decimal(f.remote_port as nat));
}

proof fn lemma_host_lines_single(h: ServerView)
    requires
        writable_server(h),
    ensures
        single_lines(host_lines(h)),
{
    lemma_word_single(h.host_tag);
    lemma_no_newline_add(seq!['H', 'o', 's', 't', ' '], h.host_tag);
    let head = seq![host_line(h.host_tag)];
    lemma_field_lines_single(h);
    lemma_single_add(head, field_lines(h));
    if h.group.len() > 0 {
        lemma_word_single(h.group);
        lemma_no_newline_add(seq!['#', ' ', 'G', 'r', 'o', 'u', 'p', ' '], h.group);
    }
    lemma_opt_single(h.group.len() > 0, group_line(h.group));
    if h.tags.len() > 0 {
        lemma_join_words_ends(h.tags);
        lemma_no_newline_add(seq!['#', ' ', 'T', 'a', 'g', 's', ' '], join_words(h.tags));
    }
    lemma_opt_single(h.tags.len() > 0, tags_line(h.tags));
    lemma_single_add(
        opt_line(h.group.len() > 0, group_line(h.group)),
        opt_line(h.tags.len() > 0, tags_line(h.tags)),
    );
    lemma_single_add(head + field_lines(h), annotation_lines(h));
    lemma_single_add(head + field_lines(h) + annotation_lines(h), seq![Seq::<char>::empty()]);
}

proof fn lemma_config_lines_single(c: ConfigView)
    requires
        writable(c),
    ensures
        single_lines(config_lines(c)),
{
    let gs = c.global;
    if gs.len() > 0 {
        let pl = pair_lines(gs);
        assert forall|i: int| 0 <= i < pl.len() implies no_newline(#[trigger] pl[i]) by {
            let kv = gs[i];
            assert(writable_pair(kv));
            lemma_word_single(kv.0);
            lemma_no_newline_add(indent(), kv.0);
            lemma_no_newline_add(indent() + kv.0, seq![' ']);
            lemma_no_newline_add(indent() + kv.0 + seq![' '], kv.1);
        }
        lemma_no_newline_add(seq!['H', 'o', 's', 't', ' '], seq!['*']);
        lemma_single_add(seq![host_line(seq!['*'])], pl);
        lemma_single_add(seq![host_line(seq!['*'])] + pl, seq![Seq::<char>::empty()]);
    }
    lemma_servers_single(c.servers);
    lemma_single_add(global_lines(gs), servers_lines(c.servers));
}

proof fn lemma_servers_single(ss: Seq<ServerView>)
    requires
        forall|i: int| 0 <= i < ss.len() ==> writable_server(#[trigger] ss[i]),
    ensures
        single_lines(servers_lines(ss)),
    decreases ss.len(),
{
    if ss.len() > 0 {
        let init = ss.drop_last();
        assert forall|i: int| 0 <= i < init.len() implies writable_server(#[trigger] init[i]) by {
            assert(init[i] == ss[i]);
        }
        lemma_servers_single(init);
        assert(writable_server(ss[ss.len() - 1]));
        lemma_host_lines_single(ss.last());
        lemma_single_add(servers_lines(init), host_lines(ss.last()));
    }
}

/// Round trip: reading what `render_ssh_config` writes gives back the same
/// configuration, for every configuration whose pairs and host records can
/// be written as single directives (see `writable`).
/// A port of 0 lies outside the model's range and is excluded: it would be
/// written as `Port 0`, which the reader refuses as malformed.
pub proof fn lemma_round_trip(c: ConfigView)
    requires
        writable(c),
    ensures
        parse_config(render(c)) == Ok::<ConfigView, ParseErrorView>(c),
{
    let gs = c.global;
    let ss = c.servers;
    lemma_config_lines_single(c);
    lemma_lines_join(config_lines(c));
    lemma_global_lines(gs);
    let st = ParseState {
        global: gs,
        servers: Seq::empty(),
        current: None,
        in_global: gs.len() > 0,
    };
    lemma_servers_lines(st, ss);
    lemma_run_concat(initial_state(), global_lines(gs), servers_lines(ss));
    if ss.len() > 0 {
        assert(ss.drop_last().push(ss.last()) =~= ss);
    } else {
        assert(ss =~= Seq::<ServerView>::empty());
    }
}

/// An indented `Port ` directive line.
pub open spec fn is_port_line(l: Seq<char>) -> bool {
    l.len() >= 9 && l.subrange(0, 9) == indent() + seq!['P', 'o', 'r', 't', ' ']
}

/// No line of `ls` is a `Port` line.
pub open spec fn no_port_line(ls: Seq<Seq<char>>) -> bool {
    forall|i: int| 0 <= i < ls.len() ==> !is_port_line(#[trigger] ls[i])
}

proof fn lemma_no_port_add(a: Seq<Seq<char>>, b: Seq<Seq<char>>)
    requires
        no_port_line(a),
        no_port_line(b),
    ensures
        no_port_line(a + b),
{
    assert forall|i: int| 0 <= i < (a + b).len() implies !is_port_line(#[trigger] (a + b)[i]) by {
        if i < a.len() {
            assert((a + b)[i] == a[i]);
        } else {
            assert((a + b)[i] == b[i - a.len()]);
        }
    }
}

/// A line whose character `k` differs from that of `    Port ` is no port
/// line.
proof fn lemma_not_port_at(l: Seq<char>, k: int)
    requires
        0 <= k < 9,
        k < l.len() ==> l[k] != (indent() + seq!['P', 'o', 'r', 't', ' '])[k],
    ensures
        !is_port_line(l),
{
    if l.len() >= 9 {
        assert(l.subrange(0, 9)[k] == l[k]);
    }
}

proof fn lemma_opt_no_port(present: bool, l: Seq<char>)
    requires
        present ==> !is_port_line(l),
    ensures
        no_port_line(opt_line(present, l)),
{
}

proof fn lemma_field_lines_no_port(h: ServerView)
    requires
        h.port == 22,
    ensures
        no_port_line(field_lines(h)),
{
    let l1 = opt_line(h.user.len() > 0, user_line(h.user));
    let l2 = opt_line(h.hostname.len() > 0, hostname_line(h.hostname));
    let l3 = opt_line(h.port != 22, port_line(h.port));
    let l4 = opt_line(h.forward_agent, forward_agent_line());
    let l5 = opt_line(h.dynamic_forward is Some, dynamic_forward_line(h.dynamic_forward->0));
    let l6 = opt_line(h.local_forward is Some, local_forward_line(h.local_forward->0));
    let l7 = opt_line(h.proxy_jump is Some, proxy_jump_line(h.proxy_jump->0));
    lemma_not_port_at(user_line(h.user), 4);
    lemma_not_port_at(hostname_line(h.hostname), 4);
    lemma_not_port_at(forward_agent_line(), 4);
    lemma_not_port_at(dynamic_forward_line(h.dynamic_forward->0), 4);
    lemma_not_port_at(local_forward_line(h.local_forward->0), 4);
    lemma_not_port_at(proxy_jump_line(h.proxy_jump->0), 5);
    lemma_opt_no_port(h.user.len() > 0, user_line(h.user));
    lemma_opt_no_port(h.hostname.len() > 0, hostname_line(h.hostname));
    lemma_opt_no_port(h.port != 22, port_line(h.port));
    lemma_opt_no_port(h.forward_agent, forward_agent_line());
    lemma_opt_no_port(h.dynamic_forward is Some, dynamic_forward_line(h.dynamic_forward->0));
    lemma_opt_no_port(h.local_forward is Some, local_forward_line(h.local_forward->0));
    lemma_opt_no_port(h.proxy_jump is Some, proxy_jump_line(h.proxy_jump->0));
    lemma_no_port_add(l1, l2);
    lemma_no_port_add(l1 + l2, l3);
    lemma_no_port_add(l1 + l2 + l3, l4);
    lemma_no_port_add(l1 + l2 + l3 + l4, l5);
    lemma_no_port_add(l1 + l2 + l3 + l4 + l5, l6);
    lemma_no_port_add(l1 + l2 + l3 + l4 + l5 + l6, l7);
}

proof fn lemma_host_lines_no_port(h: ServerView)
    requires
        h.port == 22,
    ensures
        no_port_line(host_lines(h)),
{
    let head = seq![host_line(h.host_tag)];
    let blank = seq![Seq::<char>::empty()];
    lemma_not_port_at(host_line(h.host_tag), 0);
    lemma_not_port_at(group_line(h.group), 0);
    lemma_not_port_at(tags_line(h.tags), 0);
    lemma_not_port_at(Seq::<char>::empty(), 0);
    lemma_opt_no_port(h.group.len() > 0, group_line(h.group));
    lemma_opt_no_port(h.tags.len() > 0, tags_line(h.tags));
    lemma_no_port_add(
        opt_line(h.group.len() > 0, group_line(h.group)),
        opt_line(h.tags.len() > 0, tags_line(h.tags)),
    );
    lemma_field_lines_no_port(h);
    lemma_no_port_add(head, field_lines(h));
    lemma_no_port_add(head + field_lines(h), annotation_lines(h));
    lemma_no_port_add(head + field_lines(h) + annotation_lines(h), blank);
}

proof fn lemma_host_lines_port(h: ServerView)
    requires
        h.port != 22,
    ensures
        host_lines(h).contains(port_line(h.port)),
{
    let l1 = opt_line(h.user.len() > 0, user_line(h.user));
    let l2 = opt_line(h.hostname.len() > 0, hostname_line(h.hostname));
    let l3 = opt_line(h.port != 22, port_line(h.port));
    let head = seq![host_line(h.host_tag)];
    let front = head + l1 + l2;
    let k = front.len() as int;
    let f = field_lines(h);
    let all = host_lines(h);
    let j = (l1.len() + l2.len()) as int;
    assert(f.subrange(0, j + 1) =~= l1 + l2 + l3);
    assert((l1 + l2 + l3)[j] == port_line(h.port));
    assert(f[j] == f.subrange(0, j + 1)[j]);
    assert(all[k] == f[j]);
}

/// Default omission: a host record on port 22 is written without a `Port`
/// line, and one on any other port is written with `Port <port>`.
pub proof fn lemma_default_port_omitted(h: ServerView)
    ensures
        h.port == 22 ==> no_port_line(host_lines(h)),
        h.port != 22 ==> host_lines(h).contains(port_line(h.port)),
{
    if h.port == 22 {
        lemma_host_lines_no_port(h);
    } else {
        lemma_host_lines_port(h);
    }
}

/// The positions in `ss` of the hosts that `select` keeps.
pub open spec fn select_positions(
    ss: Seq<ServerView>,
    group: Option<Seq<char>>,
    tag: Option<Seq<char>>,
) -> Seq<int>
    decreases ss.len(),
{
    if ss.len() == 0 {
        Seq::empty()
    } else {
        let rest = select_positions(ss.drop_last(), group, tag);
        if keep(ss.last(), group, tag) {
            rest.push(ss.len() - 1)
        } else {
            rest
        }
    }
}

/// Order preservation: each host that the filter keeps is the host at a
/// position of the input, and those positions strictly increase, so the
/// kept hosts come out in their stored order.
pub proof fn lemma_select_keeps_order(
    ss: Seq<ServerView>,
    group: Option<Seq<char>>,
    tag: Option<Seq<char>>,
)
    ensures
        select_positions(ss, group, tag).len() == select(ss, group, tag).len(),
        forall|k: int|
            0 <= k < select(ss, group, tag).len() ==> {
                let p = #[trigger] select_positions(ss, group, tag)[k];
                0 <= p < ss.len() && select(ss, group, tag)[k] == ss[p]
            },
        forall|k1: int, k2: int|
            0 <= k1 < k2 < select(ss, group, tag).len() ==> #[trigger] select_positions(
                ss,
                group,
                tag,
            )[k1] < #[trigger] select_positions(ss, group, tag)[k2],
    decreases ss.len(),
{
    if ss.len() > 0 {
        let init = ss.drop_last();
        lemma_select_keeps_order(init, group, tag);
        let ps = select_positions(init, group, tag);
        let sel = select(init, group, tag);
        assert forall|k: int| 0 <= k < ps.len() implies 0 <= #[trigger] ps[k] < init.len() && sel[k]
            == ss[ps[k]] by {
            assert(init[ps[k]] == ss[ps[k]]);
        }
    }
}

/// What every host record that the reader produces satisfies: a
/// non-empty tag other than `*`, a port from 1 up, and no empty tag.
pub open spec fn well_formed_server(h: ServerView) -> bool {
    &&& h.host_tag.len() > 0
    &&& h.host_tag != seq!['*']
    &&& h.port >= 1
    &&& forall|i: int| 0 <= i < h.tags.len() ==> (#[trigger] h.tags[i]).len() > 0
}

pub open spec fn well_formed(c: ConfigView) -> bool {
    forall|i: int| 0 <= i < c.servers.len() ==> well_formed_server(#[trigger] c.servers[i])
}

pub open spec fn well_formed_state(st: ParseState) -> bool {
    &&& forall|i: int| 0 <= i < st.servers.len() ==> well_formed_server(#[trigger] st.servers[i])
    &&& (st.current is Some ==> well_formed_server(st.current->0))
}

proof fn lemma_tag_words_nonempty(l: Seq<char>, i: int)
    ensures
        forall|k: int|
            0 <= k < tag_words(l, i).len() ==> (#[trigger] tag_words(l, i)[k]).len() > 0,
    decreases l.len() - i,
{
    if 0 <= i <= l.len() {
        let a = scan(l, i, Stop::NonSpace);
        lemma_scan_bounds(l, i, Stop::NonSpace);
        if a < l.len() && l[a] != '#' {
            let e = scan(l, a, Stop::SpaceOrHash);
            lemma_scan_bounds(l, a + 1, Stop::SpaceOrHash);
            lemma_tag_words_nonempty(l, e);
            let ws = tag_words(l, i);
            assert(ws == seq![l.subrange(a, e)] + tag_words(l, e));
            assert forall|k: int| 0 <= k < ws.len() implies (#[trigger] ws[k]).len() > 0 by {
                if k > 0 {
                    assert(ws[k] == tag_words(l, e)[k - 1]);
                }
            }
        }
    }
}

proof fn lemma_host_decl_nonempty(l: Seq<char>)
    ensures
        host_decl(l) is Some ==> (host_decl(l)->0).len() > 0,
{
    if host_decl(l) is Some {
        let a = scan(l, 4, Stop::NonSpace);
        lemma_scan_bounds(l, 4, Stop::NonSpace);
        lemma_scan_bounds(l, a + 1, Stop::Space);
    }
}

proof fn lemma_apply_line_well_formed(h: ServerView, l: Seq<char>)
    requires
        well_formed_server(h),
    ensures
        apply_line(h, l) is Ok ==> well_formed_server(apply_line(h, l)->Ok_0),
{
    match tags_comment(l) {
        Some(ts) => {
            let b = scan(l, annotation_start(l, kw_tags())->0, Stop::NonSpace);
            lemma_tag_words_nonempty(l, b);
        },
        None => {},
    }
}

proof fn lemma_step_well_formed(st: ParseState, raw: Seq<char>)
    requires
        well_formed_state(st),
    ensures
        step(st, raw) is Ok ==> well_formed_state(step(st, raw)->Ok_0),
{
    let l = trim(raw);
    lemma_host_decl_nonempty(l);
    if l.len() > 0 && host_decl(l) is None && !st.in_global && st.current is Some {
        lemma_apply_line_well_formed(st.current->0, l);
    }
    if l.len() > 0 && host_decl(l) is Some {
        let servers = flush(st.servers, st.current);
        assert forall|i: int| 0 <= i < servers.len() implies well_formed_server(
            #[trigger] servers[i],
        ) by {
            if i < st.servers.len() {
                assert(servers[i] == st.servers[i]);
            }
        }
    }
}

proof fn lemma_run_well_formed(st: ParseState, ls: Seq<Seq<char>>)
    requires
        well_formed_state(st),
    ensures
        run(st, ls) is Ok ==> well_formed_state(run(st, ls)->Ok_0),
    decreases ls.len(),
{
    if ls.len() > 0 {
        lemma_step_well_formed(st, ls[0]);
        match step(st, ls[0]) {
            Ok(s2) => lemma_run_well_formed(s2, ls.drop_first()),
            Err(e) => {},
        }
    }
}

/// Whatever text is read, every host record in the result has a non-empty
/// tag other than `*`, a port from 1 up, and only non-empty tags.
pub proof fn lemma_parse_well_formed(text: Seq<char>)
    ensures
        parse_config(text) is Ok ==> well_formed(parse_config(text)->Ok_0),
{
    lemma_run_well_formed(initial_state(), lines(text));
    match run(initial_state(), lines(text)) {
        Ok(st) => {
            let servers = flush(st.servers, st.current);
            assert forall|i: int| 0 <= i < servers.len() implies well_formed_server(
                #[trigger] servers[i],
            ) by {
                if i < st.servers.len() {
                    assert(servers[i] == st.servers[i]);
                }
            }
        },
        Err(e) => {},
    }
}

/// The tag that the line `raw` declares for a named host block, if any.
pub open spec fn declared_tag(raw: Seq<char>) -> Option<Seq<char>> {
    let l = trim(raw);
    if l.len() > 0 {
        match host_decl(l) {
            Some(t) => if t != seq!['*'] {
                Some(t)
            } else {
                None
            },
            None => None,
        }
    } else {
        None
    }
}

/// The tags that the lines `ls` declare for named host blocks, in order,
/// repeats kept.
pub open spec fn declared_tags(ls: Seq<Seq<char>>) -> Seq<Seq<char>>
    decreases ls.len(),
{
    if ls.len() == 0 {
        Seq::empty()
    } else {
        let first = match declared_tag(ls[0]) {
            Some(t) => seq![t],
            None => Seq::empty(),
        };
        first + declared_tags(ls.drop_first())
    }
}

/// The tags of the host records `ss`, in order.
pub open spec fn host_tags(ss: Seq<ServerView>) -> Seq<Seq<char>> {
    ss.map_values(|h: ServerView| h.host_tag)
}

/// The tags of the records read so far, the one under construction last.
pub open spec fn tags_so_far(st: ParseState) -> Seq<Seq<char>> {
    host_tags(flush(st.servers, st.current))
}

proof fn lemma_host_tags_push(ss: Seq<ServerView>, h: ServerView)
    ensures
        host_tags(ss.push(h)) == host_tags(ss).push(h.host_tag),
{
    assert(host_tags(ss.push(h)) =~= host_tags(ss).push(h.host_tag));
}

proof fn lemma_step_tags(st: ParseState, raw: Seq<char>)
    ensures
        step(st, raw) is Ok ==> tags_so_far(step(st, raw)->Ok_0) == tags_so_far(st) + match declared_tag(
            raw,
        ) {
            Some(t) => seq![t],
            None => Seq::<Seq<char>>::empty(),
        },
{
    let l = trim(raw);
    let before = tags_so_far(st);
    assert(before + Seq::<Seq<char>>::empty() =~= before);
    if l.len() > 0 {
        match host_decl(l) {
            Some(t) => {
                let servers = flush(st.servers, st.current);
                if t != seq!['*'] {
                    lemma_host_tags_push(servers, new_server(t));
                    assert(before.push(t) =~= before + seq![t]);
                }
            },
            None => {
                if !st.in_global {
                    match st.current {
                        Some(h) => match apply_line(h, l) {
                            Ok(h2) => {
                                lemma_host_tags_push(st.servers, h);
                                lemma_host_tags_push(st.servers, h2);
                            },
                            Err(e) => {},
                        },
                        None => {},
                    }
                }
            },
        }
    }
}

proof fn lemma_run_tags(st: ParseState, ls: Seq<Seq<char>>)
    ensures
        run(st, ls) is Ok ==> tags_so_far(run(st, ls)->Ok_0) == tags_so_far(st) + declared_tags(ls),
    decreases ls.len(),
{
    if ls.len() == 0 {
        assert(tags_so_far(st) + declared_tags(ls) =~= tags_so_far(st));
    } else {
        lemma_step_tags(st, ls[0]);
        match step(st, ls[0]) {
            Ok(s2) => {
                lemma_run_tags(s2, ls.drop_first());
                let first = match declared_tag(ls[0]) {
                    Some(t) => seq![t],
                    None => Seq::<Seq<char>>::empty(),
                };
                assert(tags_so_far(st) + first + declared_tags(ls.drop_first()) =~= tags_so_far(st)
                    + declared_tags(ls));
            },
            Err(e) => {},
        }
    }
}

/// Order preservation when reading: the host records come out one per
/// `Host <tag>` line with a tag other than `*`, in the order of those lines,
/// repeats kept.
pub proof fn lemma_parse_keeps_order(text: Seq<char>)
    ensures
        parse_config(text) is Ok ==> host_tags((parse_config(text)->Ok_0).servers)
            == declared_tags(lines(text)),
{
    let st = initial_state();
    lemma_run_tags(st, lines(text));
    assert(tags_so_far(st) =~= Seq::<Seq<char>>::empty());
    assert(Seq::<Seq<char>>::empty() + declared_tags(lines(text)) =~= declared_tags(lines(text)));
}

/// A line that starts `Host `.
pub open spec fn is_host_line(l: Seq<char>) -> bool {
    l.len() >= 5 && l.subrange(0, 5) == seq!['H', 'o', 's', 't', ' ']
}

/// The lines of `ls` that start `Host `, in order.
pub open spec fn host_lines_in(ls: Seq<Seq<char>>) -> Seq<Seq<char>>
    decreases ls.len(),
{
    if ls.len() == 0 {
        Seq::empty()
    } else {
        let first = if is_host_line(ls[0]) {
            seq![ls[0]]
        } else {
            Seq::empty()
        };
        first + host_lines_in(ls.drop_first())
    }
}

/// The `Host` line of each record of `ss`, in order.
pub open spec fn block_heads(ss: Seq<ServerView>) -> Seq<Seq<char>> {
    ss.map_values(|h: ServerView| host_line(h.host_tag))
}

proof fn lemma_host_lines_in_add(a: Seq<Seq<char>>, b: Seq<Seq<char>>)
    ensures
        host_lines_in(a + b) == host_lines_in(a) + host_lines_in(b),
    decreases a.len(),
{
    if a.len() == 0 {
        assert(a + b =~= b);
        assert(host_lines_in(a) + host_lines_in(b) =~= host_lines_in(b));
    } else {
        lemma_host_lines_in_add(a.drop_first(), b);
        assert((a + b)[0] == a[0]);
        assert((a + b).drop_first() =~= a.drop_first() + b);
        let first = if is_host_line(a[0]) {
            seq![a[0]]
        } else {
            Seq::<Seq<char>>::empty()
        };
        assert(first + (host_lines_in(a.drop_first()) + host_lines_in(b)) =~= first
            + host_lines_in(a.drop_first()) + host_lines_in(b));
    }
}

proof fn lemma_host_lines_in_none(ls: Seq<Seq<char>>)
    requires
        forall|i: int| 0 <= i < ls.len() ==> !is_host_line(#[trigger] ls[i]),
    ensures
        host_lines_in(ls) == Seq::<Seq<char>>::empty(),
    decreases ls.len(),
{
    if ls.len() > 0 {
        assert(!is_host_line(ls[0]));
        assert forall|i: int| 0 <= i < ls.drop_first().len() implies !is_host_line(
            #[trigger] ls.drop_first()[i],
        ) by {
            assert(ls.drop_first()[i] == ls[i + 1]);
        }
        lemma_host_lines_in_none(ls.drop_first());
        assert(Seq::<Seq<char>>::empty() + Seq::<Seq<char>>::empty() =~= Seq::<Seq<char>>::empty());
    }
}

/// A line whose first character is not `H` is no `Host` line.
proof fn lemma_not_host_line(l: Seq<char>)
    requires
        l.len() > 0 ==> l[0] != 'H',
    ensures
        !is_host_line(l),
{
    if l.len() >= 5 {
        assert(l.subrange(0, 5)[0] == l[0]);
    }
}

proof fn lemma_opt_not_host(present: bool, l: Seq<char>)
    requires
        l.len() > 0 ==> l[0] != 'H',
    ensures
        host_lines_in(opt_line(present, l)) == Seq::<Seq<char>>::empty(),
{
    lemma_not_host_line(l);
    if present {
        lemma_host_lines_in_none(seq![l]);
    }
}

proof fn lemma_block_host_lines(h: ServerView)
    ensures
        host_lines_in(host_lines(h)) == seq![host_line(h.host_tag)],
{
    let e = Seq::<Seq<char>>::empty();
    let l1 = opt_line(h.user.len() > 0, user_line(h.user));
    let l2 = opt_line(h.hostname.len() > 0, hostname_line(h.hostname));
    let l3 = opt_line(h.port != 22, port_line(h.port));
    let l4 = opt_line(h.forward_agent, forward_agent_line());
    let l5 = opt_line(h.dynamic_forward is Some, dynamic_forward_line(h.dynamic_forward->0));
    let l6 = opt_line(h.local_forward is Some, local_forward_line(h.local_forward->0));
    let l7 = opt_line(h.proxy_jump is Some, proxy_jump_line(h.proxy_jump->0));
    let l8 = opt_line(h.group.len() > 0, group_line(h.group));
    let l9 = opt_line(h.tags.len() > 0, tags_line(h.tags));
    let head = seq![host_line(h.host_tag)];
    let blank = seq![Seq::<char>::empty()];
    lemma_opt_not_host(h.user.len() > 0, user_line(h.user));
    lemma_opt_not_host(h.hostname.len() > 0, hostname_line(h.hostname));
    lemma_opt_not_host(h.port != 22, port_line(h.port));
    lemma_opt_not_host(h.forward_agent, forward_agent_line());
    lemma_opt_not_host(h.dynamic_forward is Some, dynamic_forward_line(h.dynamic_forward->0));
    lemma_opt_not_host(h.local_forward is Some, local_forward_line(h.local_forward->0));
    lemma_opt_not_host(h.proxy_jump is Some, proxy_jump_line(h.proxy_jump->0));
    lemma_opt_not_host(h.group.len() > 0, group_line(h.group));
    lemma_opt_not_host(h.tags.len() > 0, tags_line(h.tags));
    lemma_opt_not_host(true, Seq::<char>::empty());
    assert(e + e =~= e);
    lemma_host_lines_in_add(l1, l2);
    lemma_host_lines_in_add(l1 + l2, l3);
    lemma_host_lines_in_add(l1 + l2 + l3, l4);
    lemma_host_lines_in_add(l1 + l2 + l3 + l4, l5);
    lemma_host_lines_in_add(l1 + l2 + l3 + l4 + l5, l6);
    lemma_host_lines_in_add(l1 + l2 + l3 + l4 + l5 + l6, l7);
    lemma_host_lines_in_add(l8, l9);
    assert(host_line(h.host_tag).subrange(0, 5) =~= seq!['H', 'o', 's', 't', ' ']);
    assert(head.drop_first() =~= e);
    assert(host_lines_in(e) == e);
    assert(is_host_line(head[0]));
    assert(host_lines_in(head) =~= head);
    lemma_host_lines_in_add(head, field_lines(h));
    lemma_host_lines_in_add(head + field_lines(h), annotation_lines(h));
    lemma_host_lines_in_add(head + field_lines(h) + annotation_lines(h), blank);
    assert(head + e + e + e =~= head);
}

proof fn lemma_servers_host_lines(ss: Seq<ServerView>)
    ensures
        host_lines_in(servers_lines(ss)) == block_heads(ss),
    decreases ss.len(),
{
    if ss.len() == 0 {
        assert(block_heads(ss) =~= Seq::<Seq<char>>::empty());
    } else {
        lemma_servers_host_lines(ss.drop_last());
        lemma_block_host_lines(ss.last());
        lemma_host_lines_in_add(servers_lines(ss.drop_last()), host_lines(ss.last()));
        assert(block_heads(ss) =~= block_heads(ss.drop_last()) + seq![host_line(ss.last().host_tag)]);
    }
}

/// Order preservation when writing: the `Host` lines written are `Host *`
/// when there are pairs, then one `Host <tag>` per record in stored order,
/// repeats kept. For a configuration that `writable` accepts, these lines
/// are the lines of the written text.
pub proof fn lemma_render_keeps_order(c: ConfigView)
    ensures
        render(c) == join_lines(config_lines(c)),
        host_lines_in(config_lines(c)) == (if c.global.len() > 0 {
            seq![host_line(seq!['*'])]
        } else {
            Seq::<Seq<char>>::empty()
        }) + block_heads(c.servers),
        writable(c) ==> lines(render(c)) == config_lines(c),
{
    let gs = c.global;
    let e = Seq::<Seq<char>>::empty();
    if gs.len() > 0 {
        let head = seq![host_line(seq!['*'])];
        let pl = pair_lines(gs);
        assert forall|i: int| 0 <= i < pl.len() implies !is_host_line(#[trigger] pl[i]) by {
            lemma_not_host_line(global_line(gs[i]));
        }
        lemma_host_lines_in_none(pl);
        lemma_opt_not_host(true, Seq::<char>::empty());
        assert(host_line(seq!['*']).subrange(0, 5) =~= seq!['H', 'o', 's', 't', ' ']);
        assert(head.drop_first() =~= e);
        assert(host_lines_in(e) == e);
        assert(is_host_line(head[0]));
        assert(host_lines_in(head) =~= head);
        lemma_host_lines_in_add(head, pl);
        lemma_host_lines_in_add(head + pl, seq![Seq::<char>::empty()]);
        assert(head + e + e =~= head);
    }
    lemma_servers_host_lines(c.servers);
    lemma_host_lines_in_add(global_lines(gs), servers_lines(c.servers));
    if gs.len() == 0 {
        assert(e + block_heads(c.servers) =~= block_heads(c.servers));
    }
    if writable(c) {
        lemma_config_lines_single(c);
        lemma_lines_join(config_lines(c));
    }
}

} // verus!
