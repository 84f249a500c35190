//! The configuration model: one record per named host block, the raw
//! key/value pairs of the wildcard block, and their mathematical views.
use vstd::prelude::*;

verus! {

/// A `LocalForward` directive: `<local_port> <remote_host>:<remote_port>`.
#[derive(Debug, Clone, PartialEq, Eq)]
pub struct LocalForward {
    pub local_port: u16,
    pub remote_host: String,
    pub remote_port: u16,
}

/// One named host block.
#[derive(Debug, Clone, PartialEq, Eq)]
pub struct ServerConfig {
    pub host_tag: String,
    pub user: String,
    pub hostname: String,
    pub port: u16,
    pub group: String,
    pub tags: Vec<String>,
    pub forward_agent: bool,
    pub dynamic_forward: Option<String>,
    pub local_forward: Option<LocalForward>,
    pub proxy_jump: Option<String>,
}

/// A whole configuration file: the wildcard block's pairs, then the named
/// host blocks in file order.
#[derive(Debug, Clone, PartialEq, Eq)]
pub struct ParsedConfig {
    pub global: Vec<(String, String)>,
    pub servers: Vec<ServerConfig>,
}

/// Why a file could not be read as a configuration.
#[derive(Debug, Clone, PartialEq, Eq)]
pub enum ParseError {
    /// A `Port` directive of a host block whose value is not a port number
    /// from 1 to 65535; it holds that value.
    MalformedPort(String),
}

/// The view of a `LocalForward`.
pub struct ForwardView {
    pub local_port: u16,
    pub remote_host: Seq<char>,
    pub remote_port: u16,
}

/// The view of a `ServerConfig`.
pub struct ServerView {
    pub host_tag: Seq<char>,
    pub user: Seq<char>,
    pub hostname: Seq<char>,
    pub port: u16,
    pub group: Seq<char>,
    pub tags: Seq<Seq<char>>,
    pub forward_agent: bool,
    pub dynamic_forward: Option<Seq<char>>,
    pub local_forward: Option<ForwardView>,
    pub proxy_jump: Option<Seq<char>>,
}

/// The view of a `ParsedConfig`.
pub struct ConfigView {
    pub global: Seq<(Seq<char>, Seq<char>)>,
    pub servers: Seq<ServerView>,
}

/// The view of a `ParseError`.
pub enum ParseErrorView {
    MalformedPort(Seq<char>),
}

pub open spec fn opt_view(o: Option<String>) -> Option<Seq<char>> {
    match o {
        Some(s) => Some(s@),
        None => None,
    }
}

pub open spec fn strings_view(v: Seq<String>) -> Seq<Seq<char>> {
    v.map_values(|s: String| s@)
}

pub open spec fn pairs_view(v: Seq<(String, String)>) -> Seq<(Seq<char>, Seq<char>)> {
    v.map_values(|p: (String, String)| (p.0@, p.1@))
}

pub open spec fn servers_view(v: Seq<ServerConfig>) -> Seq<ServerView> {
    v.map_values(|s: ServerConfig| s@)
}

impl View for LocalForward {
    type V = ForwardView;

    open spec fn view(&self) -> ForwardView {
        ForwardView {
            local_port: self.local_port,
            remote_host: self.remote_host@,
            remote_port: self.remote_port,
        }
    }
}

impl View for ServerConfig {
    type V = ServerView;

    open spec fn view(&self) -> ServerView {
        ServerView {
            host_tag: self.host_tag@,
            user: self.user@,
            hostname: self.hostname@,
            port: self.port,
            group: self.group@,
            tags: strings_view(self.tags@),
            forward_agent: self.forward_agent,
            dynamic_forward: opt_view(self.dynamic_forward),
            local_forward: match self.local_forward {
                Some(f) => Some(f@),
                None => None,
            },
            proxy_jump: opt_view(self.proxy_jump),
        }
    }
}

impl View for ParsedConfig {
    type V = ConfigView;

    open spec fn view(&self) -> ConfigView {
        ConfigView { global: pairs_view(self.global@), servers: servers_view(self.servers@) }
    }
}

impl View for ParseError {
    type V = ParseErrorView;

    open spec fn view(&self) -> ParseErrorView {
        match self {
            ParseError::MalformedPort(v) => ParseErrorView::MalformedPort(v@),
        }
    }
}

/// A copy of the strings `v`.
pub fn copy_strings(v: &Vec<String>) -> (r: Vec<String>)
    ensures
        strings_view(r@) == strings_view(v@),
{
    let mut r: Vec<String> = Vec::new();
    let mut i: usize = 0;
    while i < v.len()
        invariant
            i <= v.len(),
            r.len() == i,
            forall|k: int| 0 <= k < i ==> (#[trigger] r@[k])@ == v@[k]@,
        decreases v.len() - i,
    {
        r.push(v[i].clone());
        i += 1;
    }
    assert(strings_view(r@) =~= strings_view(v@));
    r
}

fn copy_opt(o: &Option<String>) -> (r: Option<String>)
    ensures
        opt_view(r) == opt_view(*o),
{
    match o {
        Some(s) => Some(s.clone()),
        None => None,
    }
}

impl LocalForward {
    /// A copy with the same view.
    pub fn duplicate(&self) -> (r: LocalForward)
        ensures
            r@ == self@,
    {
        LocalForward {
            local_port: self.local_port,
            remote_host: self.remote_host.clone(),
            remote_port: self.remote_port,
        }
    }
}

impl ServerConfig {
    /// A host block named `tag` with every other field at its default:
    /// port 22, agent forwarding off, everything else empty or absent.
    pub fn new(tag: String) -> (r: ServerConfig)
        ensures
            r@ == new_server(tag@),
    {
        let r = ServerConfig {
            host_tag: tag,
            user: String::new(),
            hostname: String::new(),
            port: 22,
            group: String::new(),
            tags: Vec::new(),
            forward_agent: false,
            dynamic_forward: None,
            local_forward: None,
            proxy_jump: None,
        };
        assert(r@.tags =~= Seq::<Seq<char>>::empty());
        r
    }

    /// A copy with the same view.
    pub fn duplicate(&self) -> (r: ServerConfig)
        ensures
            r@ == self@,
    {
        let local_forward = match &self.local_forward {
            Some(f) => Some(f.duplicate()),
            None => None,
        };
        ServerConfig {
            host_tag: self.host_tag.clone(),
            user: self.user.clone(),
            hostname: self.hostname.clone(),
            port: self.port,
            group: self.group.clone(),
            tags: copy_strings(&self.tags),
            forward_agent: self.forward_agent,
            dynamic_forward: copy_opt(&self.dynamic_forward),
            local_forward,
            proxy_jump: copy_opt(&self.proxy_jump),
        }
    }
}

/// A freshly declared host block: the tag, and defaults everywhere else.
pub open spec fn new_server(tag: Seq<char>) -> ServerView {
    ServerView {
        host_tag: tag,
        user: Seq::empty(),
        hostname: Seq::empty(),
        port: 22,
        group: Seq::empty(),
        tags: Seq::empty(),
        forward_agent: false,
        dynamic_forward: None,
        local_forward: None,
        proxy_jump: None,
    }
}

} // verus!
