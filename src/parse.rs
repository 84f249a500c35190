//! Reading a configuration: the line classifier, the directive table, the
//! `# Group` / `# Tags` annotations and the single pass that assembles the
//! model.
use vstd::prelude::*;
use crate::model::{ForwardView, ParseErrorView, ServerView, ConfigView, new_server};
use crate::model::{LocalForward, ParseError, ParsedConfig, ServerConfig, strings_view};
use crate::model::{pairs_view, servers_view};
use crate::text::{Stop, eq_ci, is_ws, lemma_scan_bounds, lines, parse_u16, scan, trim};
use crate::text::{is_ws_char, keyword_at, parse_u16_chars, scan_from, string_of, sub_vec, substring};
use crate::text::{chars_of, lemma_scan_at, stops, trim_bounds};

verus! {

pub open spec fn kw_host() -> Seq<char> {
    seq!['h', 'o', 's', 't']
}

pub open spec fn kw_group() -> Seq<char> {
    seq!['g', 'r', 'o', 'u', 'p']
}

pub open spec fn kw_tags() -> Seq<char> {
    seq!['t', 'a', 'g', 's']
}

pub open spec fn kw_user() -> Seq<char> {
    seq!['u', 's', 'e', 'r']
}

pub open spec fn kw_hostname() -> Seq<char> {
    seq!['h', 'o', 's', 't', 'n', 'a', 'm', 'e']
}

pub open spec fn kw_port() -> Seq<char> {
    seq!['p', 'o', 'r', 't']
}

pub open spec fn kw_forwardagent() -> Seq<char> {
    seq!['f', 'o', 'r', 'w', 'a', 'r', 'd', 'a', 'g', 'e', 'n', 't']
}

pub open spec fn kw_dynamicforward() -> Seq<char> {
    seq!['d', 'y', 'n', 'a', 'm', 'i', 'c', 'f', 'o', 'r', 'w', 'a', 'r', 'd']
}

pub open spec fn kw_localforward() -> Seq<char> {
    seq!['l', 'o', 'c', 'a', 'l', 'f', 'o', 'r', 'w', 'a', 'r', 'd']
}

pub open spec fn kw_proxyjump() -> Seq<char> {
    seq!['p', 'r', 'o', 'x', 'y', 'j', 'u', 'm', 'p']
}

pub open spec fn kw_yes() -> Seq<char> {
    seq!['y', 'e', 's']
}

/// The tag that a trimmed line declares: the keyword `host` in any ASCII
/// case at the start of the line, whitespace, then the first
/// whitespace-delimited token.
pub open spec fn host_decl(l: Seq<char>) -> Option<Seq<char>> {
    if l.len() > 4 && eq_ci(l.subrange(0, 4), kw_host()) && is_ws(l[4]) && scan(
        l,
        4,
        Stop::NonSpace,
    ) < l.len() {
        let a = scan(l, 4, Stop::NonSpace);
        Some(l.subrange(a, scan(l, a, Stop::Space)))
    } else {
        None
    }
}

/// The `(key, value)` of a trimmed directive line: the first token, and
/// everything after the whitespace that follows it.
pub open spec fn directive(l: Seq<char>) -> Option<(Seq<char>, Seq<char>)> {
    let k = scan(l, 0, Stop::Space);
    let v = scan(l, k, Stop::NonSpace);
    if 0 < k < l.len() && v < l.len() {
        Some((l.subrange(0, k), l.subrange(v, l.len() as int)))
    } else {
        None
    }
}

/// Where a trimmed line `#`, optional whitespace, `kw` in any ASCII case
/// and whitespace begins the annotation's value, if it has that shape.
pub open spec fn annotation_start(l: Seq<char>, kw: Seq<char>) -> Option<int> {
    let a = scan(l, 1, Stop::NonSpace);
    let n = kw.len() as int;
    if l.len() > 0 && l[0] == '#' && a + n < l.len() && eq_ci(l.subrange(a, a + n), kw) && is_ws(
        l[a + n],
    ) {
        Some(a + n)
    } else {
        None
    }
}

/// The value of a `# Group <name>` line: the first run of characters that
/// are neither whitespace nor `#`.
pub open spec fn group_comment(l: Seq<char>) -> Option<Seq<char>> {
    match annotation_start(l, kw_group()) {
        Some(s) => {
            let b = scan(l, s, Stop::NonSpace);
            if b < l.len() && l[b] != '#' {
                Some(l.subrange(b, scan(l, b, Stop::SpaceOrHash)))
            } else {
                None
            }
        },
        None => None,
    }
}

/// The whitespace-separated words of `l` from `i` up to the first `#`.
pub open spec fn tag_words(l: Seq<char>, i: int) -> Seq<Seq<char>>
    decreases l.len() - i,
{
    if 0 <= i <= l.len() {
        let a = scan(l, i, Stop::NonSpace);
        proof {
            lemma_scan_bounds(l, i, Stop::NonSpace);
        }
        if a < l.len() && l[a] != '#' {
            let e = scan(l, a, Stop::SpaceOrHash);
            proof {
                lemma_scan_bounds(l, a + 1, Stop::SpaceOrHash);
            }
            seq![l.subrange(a, e)] + tag_words(l, e)
        } else {
            Seq::empty()
        }
    } else {
        Seq::empty()
    }
}

/// The tags of a `# Tags <words>` line. The value runs to the first `#`;
/// a line whose value is empty matches only where at least two whitespace
/// characters follow the keyword, and then gives no tags.
pub open spec fn tags_comment(l: Seq<char>) -> Option<Seq<Seq<char>>> {
    match annotation_start(l, kw_tags()) {
        Some(s) => {
            let b = scan(l, s, Stop::NonSpace);
            if (b < l.len() && l[b] != '#') || b - s >= 2 {
                Some(tag_words(l, b))
            } else {
                None
            }
        },
        None => None,
    }
}

/// The last index of `c` in `s[0..j]`, or -1.
pub open spec fn last_index_of(s: Seq<char>, c: char, j: int) -> int
    decreases j,
{
    if j <= 0 || j > s.len() {
        -1
    } else if s[j - 1] == c {
        j - 1
    } else {
        last_index_of(s, c, j - 1)
    }
}

/// A `LocalForward` value: a port, one whitespace character, then a remote
/// host and a port separated by the last colon.
pub open spec fn parse_forward(v: Seq<char>) -> Option<ForwardView> {
    let i = scan(v, 0, Stop::Space);
    if i < v.len() {
        let rest = v.subrange(i + 1, v.len() as int);
        let c = last_index_of(rest, ':', rest.len() as int);
        if c >= 0 {
            match (parse_u16(v.subrange(0, i)), parse_u16(rest.subrange(c + 1, rest.len() as int))) {
                (Some(lp), Some(rp)) => Some(
                    ForwardView { local_port: lp, remote_host: rest.subrange(0, c), remote_port: rp },
                ),
                _ => None,
            }
        } else {
            None
        }
    } else {
        None
    }
}

/// The directive table: what a `key value` line does to a host block.
pub open spec fn apply_directive(h: ServerView, key: Seq<char>, value: Seq<char>) -> Result<
    ServerView,
    ParseErrorView,
> {
    if eq_ci(key, kw_user()) {
        Ok(ServerView { user: value, ..h })
    } else if eq_ci(key, kw_hostname()) {
        Ok(ServerView { hostname: value, ..h })
    } else if eq_ci(key, kw_port()) {
        match parse_u16(value) {
            Some(p) => if p >= 1 {
                Ok(ServerView { port: p, ..h })
            } else {
                Err(ParseErrorView::MalformedPort(value))
            },
            None => Err(ParseErrorView::MalformedPort(value)),
        }
    } else if eq_ci(key, kw_forwardagent()) {
        Ok(ServerView { forward_agent: eq_ci(value, kw_yes()), ..h })
    } else if eq_ci(key, kw_dynamicforward()) {
        Ok(ServerView { dynamic_forward: Some(value), ..h })
    } else if eq_ci(key, kw_localforward()) {
        match parse_forward(value) {
            Some(f) => Ok(ServerView { local_forward: Some(f), ..h }),
            None => Ok(h),
        }
    } else if eq_ci(key, kw_proxyjump()) {
        Ok(ServerView { proxy_jump: Some(value), ..h })
    } else {
        Ok(h)
    }
}

/// What a trimmed, non-empty line that declares no host does to the host
/// block under construction.
pub open spec fn apply_line(h: ServerView, l: Seq<char>) -> Result<ServerView, ParseErrorView> {
    match group_comment(l) {
        Some(g) => Ok(ServerView { group: g, ..h }),
        None => match tags_comment(l) {
            Some(ts) => Ok(ServerView { tags: ts, ..h }),
            None => match directive(l) {
                Some(kv) => apply_directive(h, kv.0, kv.1),
                None => Ok(h),
            },
        },
    }
}

/// The assembler's state between two lines.
pub struct ParseState {
    pub global: Seq<(Seq<char>, Seq<char>)>,
    pub servers: Seq<ServerView>,
    pub current: Option<ServerView>,
    pub in_global: bool,
}

pub open spec fn initial_state() -> ParseState {
    ParseState { global: Seq::empty(), servers: Seq::empty(), current: None, in_global: false }
}

/// `servers` with the block under construction, if any, appended.
pub open spec fn flush(servers: Seq<ServerView>, current: Option<ServerView>) -> Seq<ServerView> {
    match current {
        Some(h) => servers.push(h),
        None => servers,
    }
}

/// One line of input.
pub open spec fn step(st: ParseState, raw: Seq<char>) -> Result<ParseState, ParseErrorView> {
    step_trimmed(st, trim(raw))
}

/// One line of input, already trimmed.
pub open spec fn step_trimmed(st: ParseState, l: Seq<char>) -> Result<ParseState, ParseErrorView> {
    if l.len() == 0 {
        Ok(st)
    } else {
        match host_decl(l) {
            Some(tag) => {
                let servers = flush(st.servers, st.current);
                if tag == seq!['*'] {
                    Ok(ParseState { global: st.global, servers, current: None, in_global: true })
                } else {
                    Ok(
                        ParseState {
                            global: st.global,
                            servers,
                            current: Some(new_server(tag)),
                            in_global: false,
                        },
                    )
                }
            },
            None => if st.in_global {
                match directive(l) {
                    Some(kv) => Ok(ParseState { global: st.global.push(kv), ..st }),
                    None => Ok(st),
                }
            } else {
                match st.current {
                    Some(h) => match apply_line(h, l) {
                        Ok(h2) => Ok(ParseState { current: Some(h2), ..st }),
                        Err(e) => Err(e),
                    },
                    None => Ok(st),
                }
            },
        }
    }
}

/// The lines `ls` read one after the other from `st`; the first error ends
/// the reading.
pub open spec fn run(st: ParseState, ls: Seq<Seq<char>>) -> Result<ParseState, ParseErrorView>
    decreases ls.len(),
{
    if ls.len() == 0 {
        Ok(st)
    } else {
        match step(st, ls[0]) {
            Ok(st2) => run(st2, ls.drop_first()),
            Err(e) => Err(e),
        }
    }
}

/// The model that the text of a configuration file describes.
pub open spec fn parse_config(text: Seq<char>) -> Result<ConfigView, ParseErrorView> {
    match run(initial_state(), lines(text)) {
        Ok(st) => Ok(ConfigView { global: st.global, servers: flush(st.servers, st.current) }),
        Err(e) => Err(e),
    }
}

/// The view of a host record or of the error in its place.
pub open spec fn server_result(r: Result<ServerConfig, ParseError>) -> Result<
    ServerView,
    ParseErrorView,
> {
    match r {
        Ok(h) => Ok(h@),
        Err(e) => Err(e@),
    }
}

/// The view of a configuration or of the error in its place.
pub open spec fn config_result(r: Result<ParsedConfig, ParseError>) -> Result<
    ConfigView,
    ParseErrorView,
> {
    match r {
        Ok(c) => Ok(c@),
        Err(e) => Err(e@),
    }
}

/// Executes `host_decl`, giving the bounds of the declared tag.
fn host_tag_bounds(line: &Vec<char>) -> (r: Option<(usize, usize)>)
    ensures
        match r {
            Some(b) => b.0 <= b.1 <= line.len() && host_decl(line@) == Some(
                line@.subrange(b.0 as int, b.1 as int),
            ),
            None => host_decl(line@) is None,
        },
{
    let kw = ['h', 'o', 's', 't'];
    assert(kw@ == kw_host());
    if line.len() > 4 && keyword_at(line, 0, &kw) && is_ws_char(line[4]) {
        let a = scan_from(line, 4, Stop::NonSpace);
        if a < line.len() {
            let e = scan_from(line, a, Stop::Space);
            return Some((a, e));
        }
    }
    None
}

/// Executes `directive`, giving where the key ends and the value starts.
fn directive_bounds(line: &Vec<char>) -> (r: Option<(usize, usize)>)
    ensures
        match r {
            Some(b) => 0 < b.0 < b.1 < line.len() && directive(line@) == Some(
                (line@.subrange(0, b.0 as int), line@.subrange(b.1 as int, line.len() as int)),
            ),
            None => directive(line@) is None,
        },
{
    let k = scan_from(line, 0, Stop::Space);
    let v = scan_from(line, k, Stop::NonSpace);
    if 0 < k && k < line.len() && v < line.len() {
        Some((k, v))
    } else {
        None
    }
}

/// Executes `annotation_start`.
fn annotation_start_at(line: &Vec<char>, kw: &[char]) -> (r: Option<usize>)
    requires
        forall|k: int| 0 <= k < kw@.len() ==> 'a' <= #[trigger] kw@[k] && kw@[k] <= 'z',
    ensures
        match r {
            Some(s) => s < line.len() && annotation_start(line@, kw@) == Some(s as int),
            None => annotation_start(line@, kw@) is None,
        },
{
    if line.len() == 0 || line[0] != '#' {
        return None;
    }
    let a = scan_from(line, 1, Stop::NonSpace);
    if kw.len() < line.len() - a && keyword_at(line, a, kw) && is_ws_char(line[a + kw.len()]) {
        Some(a + kw.len())
    } else {
        None
    }
}

/// Executes `group_comment`, giving the bounds of the group.
fn group_bounds(line: &Vec<char>) -> (r: Option<(usize, usize)>)
    ensures
        match r {
            Some(b) => b.0 <= b.1 <= line.len() && group_comment(line@) == Some(
                line@.subrange(b.0 as int, b.1 as int),
            ),
            None => group_comment(line@) is None,
        },
{
    let kw = ['g', 'r', 'o', 'u', 'p'];
    assert(kw@ == kw_group());
    match annotation_start_at(line, &kw) {
        Some(s) => {
            let b = scan_from(line, s, Stop::NonSpace);
            if b < line.len() && line[b] != '#' {
                let e = scan_from(line, b, Stop::SpaceOrHash);
                Some((b, e))
            } else {
                None
            }
        },
        None => None,
    }
}

/// Executes `tag_words`.
fn tag_words_from(line: &Vec<char>, b: usize) -> (r: Vec<String>)
    requires
        b <= line.len(),
    ensures
        strings_view(r@) == tag_words(line@, b as int),
{
    let mut out: Vec<String> = Vec::new();
    let mut i: usize = b;
    loop
        invariant
            b <= i <= line.len(),
            strings_view(out@) + tag_words(line@, i as int) == tag_words(line@, b as int),
        decreases line.len() - i,
    {
        let a = scan_from(line, i, Stop::NonSpace);
        if a < line.len() && line[a] != '#' {
            let e = scan_from(line, a, Stop::SpaceOrHash);
            let w = substring(line, a, e);
            proof {
                lemma_scan_bounds(line@, a as int + 1, Stop::SpaceOrHash);
                assert(strings_view(out@.push(w)) =~= strings_view(out@).push(w@));
                assert(seq![w@] + tag_words(line@, e as int) == tag_words(line@, i as int));
                assert(strings_view(out@).push(w@) + tag_words(line@, e as int) =~= strings_view(
                    out@,
                ) + (seq![w@] + tag_words(line@, e as int)));
            }
            out.push(w);
            i = e;
        } else {
            assert(tag_words(line@, i as int) =~= Seq::<Seq<char>>::empty());
            assert(strings_view(out@) + tag_words(line@, i as int) =~= strings_view(out@));
            return out;
        }
    }
}

/// Executes `tags_comment`.
fn tags_of(line: &Vec<char>) -> (r: Option<Vec<String>>)
    ensures
        match r {
            Some(v) => tags_comment(line@) == Some(strings_view(v@)),
            None => tags_comment(line@) is None,
        },
{
    let kw = ['t', 'a', 'g', 's'];
    assert(kw@ == kw_tags());
    match annotation_start_at(line, &kw) {
        Some(s) => {
            let b = scan_from(line, s, Stop::NonSpace);
            if (b < line.len() && line[b] != '#') || b - s >= 2 {
                Some(tag_words_from(line, b))
            } else {
                None
            }
        },
        None => None,
    }
}

/// Executes `last_index_of` for `:` over the whole of `s`.
fn last_colon(s: &Vec<char>) -> (r: Option<usize>)
    ensures
        match r {
            Some(i) => i < s.len() && last_index_of(s@, ':', s.len() as int) == i,
            None => last_index_of(s@, ':', s.len() as int) == -1,
        },
{
    let mut j: usize = s.len();
    while j > 0
        invariant
            j <= s.len(),
            last_index_of(s@, ':', s.len() as int) == last_index_of(s@, ':', j as int),
        decreases j,
    {
        if s[j - 1] == ':' {
            return Some(j - 1);
        }
        j -= 1;
    }
    None
}

/// Executes `parse_forward`.
fn parse_forward_chars(v: &Vec<char>) -> (r: Option<LocalForward>)
    ensures
        match r {
            Some(f) => parse_forward(v@) == Some(f@),
            None => parse_forward(v@) is None,
        },
{
    let i = scan_from(v, 0, Stop::Space);
    if i >= v.len() {
        return None;
    }
    let rest = sub_vec(v, i + 1, v.len());
    match last_colon(&rest) {
        Some(c) => {
            let lp = parse_u16_chars(&sub_vec(v, 0, i));
            let rp = parse_u16_chars(&sub_vec(&rest, c + 1, rest.len()));
            match (lp, rp) {
                (Some(lp), Some(rp)) => Some(
                    LocalForward {
                        local_port: lp,
                        remote_host: substring(&rest, 0, c),
                        remote_port: rp,
                    },
                ),
                _ => None,
            }
        },
        None => None,
    }
}

/// Whether `line[0..k]` spells the lower-case keyword `kw` in any ASCII case.
fn key_is(line: &Vec<char>, k: usize, kw: &[char]) -> (r: bool)
    requires
        k <= line.len(),
        forall|i: int| 0 <= i < kw@.len() ==> 'a' <= #[trigger] kw@[i] && kw@[i] <= 'z',
    ensures
        r == eq_ci(line@.subrange(0, k as int), kw@),
{
    k == kw.len() && keyword_at(line, 0, kw)
}

/// Executes `apply_directive` on the key `line[0..k]` and the value `line[v..]`.
fn apply_directive_at(h: ServerConfig, line: &Vec<char>, k: usize, v: usize) -> (r: Result<
    ServerConfig,
    ParseError,
>)
    requires
        k <= v <= line.len(),
    ensures
        server_result(r) == apply_directive(
            h@,
            line@.subrange(0, k as int),
            line@.subrange(v as int, line.len() as int),
        ),
{
    let mut h = h;
    let n = line.len();
    let ghost value = line@.subrange(v as int, n as int);
    let user = ['u', 's', 'e', 'r'];
    let hostname = ['h', 'o', 's', 't', 'n', 'a', 'm', 'e'];
    let port = ['p', 'o', 'r', 't'];
    let forwardagent = ['f', 'o', 'r', 'w', 'a', 'r', 'd', 'a', 'g', 'e', 'n', 't'];
    let dynamicforward = ['d', 'y', 'n', 'a', 'm', 'i', 'c', 'f', 'o', 'r', 'w', 'a', 'r', 'd'];
    let localforward = ['l', 'o', 'c', 'a', 'l', 'f', 'o', 'r', 'w', 'a', 'r', 'd'];
    let proxyjump = ['p', 'r', 'o', 'x', 'y', 'j', 'u', 'm', 'p'];
    let yes = ['y', 'e', 's'];
    assert(user@ == kw_user());
    assert(hostname@ == kw_hostname());
    assert(port@ == kw_port());
    assert(forwardagent@ == kw_forwardagent());
    assert(dynamicforward@ == kw_dynamicforward());
    assert(localforward@ == kw_localforward());
    assert(proxyjump@ == kw_proxyjump());
    assert(yes@ == kw_yes());
    if key_is(line, k, &user) {
        h.user = substring(line, v, n);
        Ok(h)
    } else if key_is(line, k, &hostname) {
        h.hostname = substring(line, v, n);
        Ok(h)
    } else if key_is(line, k, &port) {
        let chars = sub_vec(line, v, n);
        match parse_u16_chars(&chars) {
            Some(p) => {
                if p >= 1 {
                    h.port = p;
                    Ok(h)
                } else {
                    Err(ParseError::MalformedPort(string_of(chars.as_slice())))
                }
            },
            None => Err(ParseError::MalformedPort(string_of(chars.as_slice()))),
        }
    } else if key_is(line, k, &forwardagent) {
        h.forward_agent = n - v == 3 && keyword_at(line, v, &yes);
        Ok(h)
    } else if key_is(line, k, &dynamicforward) {
        h.dynamic_forward = Some(substring(line, v, n));
        Ok(h)
    } else if key_is(line, k, &localforward) {
        match parse_forward_chars(&sub_vec(line, v, n)) {
            Some(f) => {
                h.local_forward = Some(f);
                Ok(h)
            },
            None => Ok(h),
        }
    } else if key_is(line, k, &proxyjump) {
        h.proxy_jump = Some(substring(line, v, n));
        Ok(h)
    } else {
        Ok(h)
    }
}

/// Executes `apply_line`.
fn apply_line_at(h: ServerConfig, line: &Vec<char>) -> (r: Result<ServerConfig, ParseError>)
    ensures
        server_result(r) == apply_line(h@, line@),
{
    let mut h = h;
    match group_bounds(line) {
        Some((a, e)) => {
            h.group = substring(line, a, e);
            Ok(h)
        },
        None => match tags_of(line) {
            Some(ts) => {
                h.tags = ts;
                Ok(h)
            },
            None => match directive_bounds(line) {
                Some((k, v)) => apply_directive_at(h, line, k, v),
                None => Ok(h),
            },
        },
    }
}

/// The assembler's state between two lines.
struct Assembler {
    global: Vec<(String, String)>,
    servers: Vec<ServerConfig>,
    current: Option<ServerConfig>,
    in_global: bool,
}

impl View for Assembler {
    type V = ParseState;

    closed spec fn view(&self) -> ParseState {
        ParseState {
            global: pairs_view(self.global@),
            servers: servers_view(self.servers@),
            current: match self.current {
                Some(h) => Some(h@),
                None => None,
            },
            in_global: self.in_global,
        }
    }
}

/// Executes `flush`.
fn flush_current(servers: &mut Vec<ServerConfig>, current: Option<ServerConfig>)
    ensures
        servers_view(final(servers)@) == flush(
            servers_view(old(servers)@),
            match current {
                Some(h) => Some(h@),
                None => None,
            },
        ),
{
    if let Some(h) = current {
        let ghost h_view = h@;
        servers.push(h);
        assert(servers_view(final(servers)@) =~= servers_view(old(servers)@).push(h_view));
    }
}

/// Executes `step_trimmed`.
fn step_line(st: Assembler, line: &Vec<char>) -> (r: Result<Assembler, ParseError>)
    ensures
        match r {
            Ok(st2) => step_trimmed(st@, line@) == Ok::<ParseState, ParseErrorView>(st2@),
            Err(e) => step_trimmed(st@, line@) == Err::<ParseState, ParseErrorView>(e@),
        },
{
    if line.len() == 0 {
        return Ok(st);
    }
    let Assembler { global, servers, current, in_global } = st;
    let mut global = global;
    let mut servers = servers;
    match host_tag_bounds(line) {
        Some((a, e)) => {
            flush_current(&mut servers, current);
            if e - a == 1 && line[a] == '*' {
                assert(line@.subrange(a as int, e as int) =~= seq!['*']);
                Ok(Assembler { global, servers, current: None, in_global: true })
            } else {
                assert(line@.subrange(a as int, e as int) != seq!['*']) by {
                    let tag = line@.subrange(a as int, e as int);
                    if tag == seq!['*'] {
                        assert(tag.len() == 1);
                        assert(tag[0] == line@[a as int]);
                    }
                }
                let h = ServerConfig::new(substring(line, a, e));
                Ok(Assembler { global, servers, current: Some(h), in_global: false })
            }
        },
        None => {
            if in_global {
                match directive_bounds(line) {
                    Some((k, v)) => {
                        let key = substring(line, 0, k);
                        let value = substring(line, v, line.len());
                        let ghost before = global@;
                        global.push((key, value));
                        assert(pairs_view(global@) =~= pairs_view(before).push(
                            (key@, value@),
                        ));
                        Ok(Assembler { global, servers, current, in_global })
                    },
                    None => Ok(Assembler { global, servers, current, in_global }),
                }
            } else {
                match current {
                    Some(h) => match apply_line_at(h, line) {
                        Ok(h2) => Ok(Assembler { global, servers, current: Some(h2), in_global }),
                        Err(e) => Err(e),
                    },
                    None => Ok(Assembler { global, servers, current: None, in_global }),
                }
            }
        },
    }
}

/// The lines of `t[pos..]` are the one that ends at the next line feed (or
/// at the end), then those after it.
proof fn lemma_lines_from(t: Seq<char>, pos: int, j: int)
    requires
        0 <= pos < t.len(),
        j == scan(t, pos, Stop::Newline),
    ensures
        pos <= j <= t.len(),
        j < t.len() ==> lines(t.subrange(pos, t.len() as int)) == seq![t.subrange(pos, j)] + lines(
            t.subrange(j + 1, t.len() as int),
        ),
        j == t.len() ==> lines(t.subrange(pos, t.len() as int)) == seq![t.subrange(pos, j)],
{
    let u = t.subrange(pos, t.len() as int);
    lemma_scan_bounds(t, pos, Stop::Newline);
    assert forall|k: int| 0 <= k < j - pos implies !stops(Stop::Newline, #[trigger] u[k]) by {
        assert(u[k] == t[pos + k]);
    }
    lemma_scan_at(u, 0, j - pos, Stop::Newline);
    assert(u.subrange(0, j - pos) =~= t.subrange(pos, j));
    if j < t.len() {
        assert(u.subrange(j - pos + 1, u.len() as int) =~= t.subrange(j + 1, t.len() as int));
    } else {
        assert(u =~= t.subrange(pos, j));
    }
}

/// Reads the text of a configuration file.
///
/// Lines are separated by line feeds and trimmed of whitespace; blank lines
/// are skipped. `Host *` opens the wildcard block, whose `key value` lines
/// are kept verbatim; any other `Host <tag>` opens a named block, whose
/// directives and `# Group` / `# Tags` annotations fill in its record.
/// Lines before the first `Host` line are ignored. A malformed `Port` value
/// in a named block fails the whole reading; a malformed `LocalForward` is
/// skipped.
pub fn parse_ssh_config(text: &str) -> (r: Result<ParsedConfig, ParseError>)
    ensures
        config_result(r) == parse_config(text@),
{
    let chars = chars_of(text);
    let n = chars.len();
    let mut st = Assembler {
        global: Vec::new(),
        servers: Vec::new(),
        current: None,
        in_global: false,
    };
    assert(st@ == initial_state()) by {
        assert(pairs_view(st.global@) =~= Seq::<(Seq<char>, Seq<char>)>::empty());
        assert(servers_view(st.servers@) =~= Seq::<ServerView>::empty());
    }
    assert(chars@.subrange(0, n as int) =~= chars@);
    let mut pos: usize = 0;
    while pos < n
        invariant
            pos <= n == chars.len(),
            chars@ == text@,
            run(initial_state(), lines(text@)) == run(
                st@,
                lines(chars@.subrange(pos as int, n as int)),
            ),
        decreases n - pos,
    {
        let j = scan_from(&chars, pos, Stop::Newline);
        let raw = sub_vec(&chars, pos, j);
        let (a, b) = trim_bounds(&raw);
        let line = sub_vec(&raw, a, b);
        let next: usize = if j < n {
            j + 1
        } else {
            n
        };
        let ghost rest = lines(chars@.subrange(next as int, n as int));
        proof {
            lemma_lines_from(chars@, pos as int, j as int);
            if j == n {
                assert(chars@.subrange(n as int, n as int) =~= Seq::<char>::empty());
                assert(rest =~= Seq::<Seq<char>>::empty());
            }
            let ls = seq![raw@] + rest;
            assert(ls[0] == raw@);
            assert(ls.drop_first() =~= rest);
        }
        match step_line(st, &line) {
            Ok(st2) => {
                st = st2;
            },
            Err(e) => {
                return Err(e);
            },
        }
        pos = next;
    }
    assert(chars@.subrange(n as int, n as int) =~= Seq::<char>::empty());
    let Assembler { global, servers, current, in_global: _ } = st;
    let mut servers = servers;
    flush_current(&mut servers, current);
    Ok(ParsedConfig { global, servers })
}

} // verus!
