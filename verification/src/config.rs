//! The settings that are kept between runs, and the state of the running application.

use crate::authority;
use crate::hosts;
use crate::hosts::{HostSet, RouteTable};
use crate::proxy;
use crate::proxy::ProxyConfig;
use crate::text;
use vstd::prelude::*;

verus! {

/// The port that the proxy listens on.
pub const DEFAULT_PORT: u16 = 26561;

/// What a user is told who starts the proxy twice.
pub const ALREADY_RUNNING: &'static str = "代理已在运行";

/// The hosts that are accelerated unless the user chooses others.
pub open spec fn default_hosts() -> Seq<Seq<char>> {
    seq![
        "store.steampowered.com"@,
        "steampowered.com"@,
        "steamcommunity.com"@,
        "api.steampowered.com"@,
        "steamstatic.com"@,
        "cdn.cloudflare.steamstatic.com"@,
        "client-update.akamai.steamstatic.com"@,
        "community.akamai.steamstatic.com"@,
        "edge.steamstatic.com"@,
        "steam-chat.com"@,
        "steamusercontent.com"@,
        "steamusercontent-a.akamaihd.net"@,
        "github.com"@,
        "api.github.com"@,
        "githubusercontent.com"@,
        "githubassets.com"@,
        "raw.githubusercontent.com"@,
        "codeload.github.com"@,
        "avatars.githubusercontent.com"@,
        "objects.githubusercontent.com"@,
        "github-cloud.s3.amazonaws.com"@,
        "cam.githubusercontent.com"@,
    ]
}

/// The hosts that are accelerated unless the user chooses others.
fn default_host_list() -> (r: Vec<String>)
    ensures
        text::views(r@) == default_hosts(),
{
    let list: [&str; 22] = [
        "store.steampowered.com",
        "steampowered.com",
        "steamcommunity.com",
        "api.steampowered.com",
        "steamstatic.com",
        "cdn.cloudflare.steamstatic.com",
        "client-update.akamai.steamstatic.com",
        "community.akamai.steamstatic.com",
        "edge.steamstatic.com",
        "steam-chat.com",
        "steamusercontent.com",
        "steamusercontent-a.akamaihd.net",
        "github.com",
        "api.github.com",
        "githubusercontent.com",
        "githubassets.com",
        "raw.githubusercontent.com",
        "codeload.github.com",
        "avatars.githubusercontent.com",
        "objects.githubusercontent.com",
        "github-cloud.s3.amazonaws.com",
        "cam.githubusercontent.com",
    ];
    let mut r: Vec<String> = Vec::new();
    let mut k: usize = 0;
    while k < 22
        invariant
            k <= 22,
            r@.len() == k,
            forall|i: int| 0 <= i < 22 ==> (#[trigger] list@[i])@ == default_hosts()[i],
            forall|i: int| 0 <= i < k ==> (#[trigger] r@[i])@ == default_hosts()[i],
        decreases 22 - k,
    {
        assert(list@[k as int]@ == default_hosts()[k as int]);
        r.push(list[k].to_owned());
        k += 1;
    }
    assert(text::views(r@) =~= default_hosts());
    r
}

/// `list` with those of `more` added at its end that it does not hold yet.
pub open spec fn merged(list: Seq<Seq<char>>, more: Seq<Seq<char>>) -> Seq<Seq<char>>
    decreases more.len(),
{
    if more.len() == 0 {
        list
    } else {
        let m = merged(list, more.drop_last());
        if m.contains(more.last()) {
            m
        } else {
            m.push(more.last())
        }
    }
}

/// The settings that are kept between runs.
#[derive(Debug)]
pub struct AppConfig {
    /// The accelerated hosts, as the user listed them.
    pub hosts: Vec<String>,
    /// For some hosts, the `host:port` that tunnels and plain requests are sent to in their place.
    /// Decrypted traffic does not follow routes: it goes to the host itself.
    pub routes: RouteTable,
}

impl Default for AppConfig {
    fn default() -> (r: AppConfig)
        ensures
            text::views(r.hosts@) == default_hosts(),
            r.routes@ == (Map::<Seq<char>, Seq<char>>::empty()),
    {
        AppConfig { hosts: default_host_list(), routes: RouteTable::new() }
    }
}

/// Copies a list of strings.
fn copy_list(list: &[String]) -> (r: Vec<String>)
    ensures
        text::views(r@) == text::views(list@),
{
    let mut r: Vec<String> = Vec::new();
    let mut k: usize = 0;
    while k < list.len()
        invariant
            k <= list@.len(),
            r@.len() == k,
            forall|i: int| 0 <= i < k ==> (#[trigger] r@[i])@ == list@[i]@,
        decreases list@.len() - k,
    {
        r.push(list[k].clone());
        k += 1;
    }
    assert(text::views(r@) =~= text::views(list@));
    r
}

impl Clone for AppConfig {
    fn clone(&self) -> (r: AppConfig)
        ensures
            text::views(r.hosts@) == text::views(self.hosts@),
            r.routes@ == self.routes@,
    {
        AppConfig { hosts: copy_list(self.hosts.as_slice()), routes: self.routes.clone() }
    }
}

/// What was found where the settings are kept.
#[derive(Debug)]
pub enum StoredConfig {
    /// Nothing that can be read.
    Missing,
    /// Something that is not in the form of settings.
    Malformed,
    /// Settings.
    Found(AppConfig),
}

/// The hosts that the stored settings name.
pub open spec fn stored_hosts(stored: StoredConfig) -> Seq<Seq<char>> {
    match stored {
        StoredConfig::Found(c) => text::views(c.hosts@),
        _ => default_hosts(),
    }
}

/// The routes that the stored settings name.
pub open spec fn stored_routes(stored: StoredConfig) -> Map<Seq<char>, Seq<char>> {
    match stored {
        StoredConfig::Found(c) => c.routes@,
        _ => Map::empty(),
    }
}

impl AppConfig {
    /// Adds those of the default hosts that are missing, so that hosts which became defaults
    /// later appear in old settings too.
    pub fn add_default_hosts(&mut self)
        ensures
            text::views(final(self).hosts@) == merged(
                text::views(old(self).hosts@),
                default_hosts(),
            ),
            final(self).routes@ == old(self).routes@,
    {
        let more = default_host_list();
        let ghost list = text::views(self.hosts@);
        let ghost all = text::views(more@);
        let ghost entries = more@;
        for h in it: more.into_iter()
            invariant
                it.seq() == entries,
                all == text::views(entries),
                text::views(self.hosts@) == merged(list, all.take(it.index())),
                self.routes@ == old(self).routes@,
        {
            let ghost before = text::views(self.hosts@);
            assert(all.take(it.index() + 1).drop_last() =~= all.take(it.index()));
            assert(all.take(it.index() + 1).last() == h@);
            if !hosts::holds(self.hosts.as_slice(), h.as_str()) {
                self.hosts.push(h);
                assert(text::views(self.hosts@) =~= before.push(h@));
            }
        }
        assert(all.take(all.len() as int) =~= all);
    }

    /// The settings to run with, given what was found, and whether they have to be written
    /// because there was nothing to read.
    pub fn load_config(stored: StoredConfig) -> (r: (AppConfig, bool))
        ensures
            text::views(r.0.hosts@) == merged(stored_hosts(stored), default_hosts()),
            r.0.routes@ == stored_routes(stored),
            r.1 == (stored is Missing),
    {
        let (mut c, write) = match stored {
            StoredConfig::Missing => (AppConfig::default(), true),
            StoredConfig::Malformed => (AppConfig::default(), false),
            StoredConfig::Found(c) => (c, false),
        };
        c.add_default_hosts();
        (c, write)
    }

    /// Takes over a new list of hosts, each in its canonical form.
    pub fn set_hosts(&mut self, hosts: &[String])
        ensures
            text::views(final(self).hosts@) == canonical_hosts(text::views(hosts@)),
            final(self).routes@ == old(self).routes@,
    {
        let mut list: Vec<String> = Vec::new();
        let mut k: usize = 0;
        while k < hosts.len()
            invariant
                k <= hosts@.len(),
                list@.len() == k,
                forall|i: int|
                    0 <= i < k ==> (#[trigger] list@[i])@ == authority::canonical(hosts@[i]@),
            decreases hosts@.len() - k,
        {
            list.push(authority::normalize_host(hosts[k].as_str()));
            k += 1;
        }
        assert(text::views(list@) =~= canonical_hosts(text::views(hosts@)));
        self.hosts = list;
    }

    /// What the proxy is set up with.
    pub fn proxy_config(&self) -> (r: ProxyConfig)
        ensures
            r.port == DEFAULT_PORT,
            r.hosts@ == text::views(self.hosts@).to_set(),
            r.routes@ == self.routes@,
    {
        ProxyConfig {
            port: DEFAULT_PORT,
            hosts: HostSet::from_list(self.hosts.as_slice()),
            routes: self.routes.clone(),
        }
    }
}

/// Each host in its canonical form.
pub open spec fn canonical_hosts(list: Seq<Seq<char>>) -> Seq<Seq<char>> {
    Seq::new(list.len(), |i: int| authority::canonical(list[i]))
}

/// What the user interface is told.
#[derive(Debug)]
pub struct Status {
    pub running: bool,
    pub port: u16,
    pub hosts: Vec<String>,
}

/// The state of the application; `H` is the handle on a running proxy.
pub struct AppState<H> {
    pub config: AppConfig,
    pub proxy: Option<H>,
}

impl<H> AppState<H> {
    /// The state at the start: the proxy does not run.
    pub fn new(config: AppConfig) -> (r: AppState<H>)
        ensures
            r.config == config,
            r.proxy is None,
    {
        AppState { config, proxy: None }
    }

    /// What to set a new proxy up with; refused while one runs.
    pub fn start_proxy(&self) -> (r: Result<ProxyConfig, String>)
        ensures
            match r {
                Ok(cfg) => self.proxy is None && cfg.port == DEFAULT_PORT && cfg.hosts@
                    == text::views(self.config.hosts@).to_set() && cfg.routes@
                    == self.config.routes@,
                Err(e) => self.proxy is Some && e@ == ALREADY_RUNNING@,
            },
    {
        match &self.proxy {
            Some(_) => Err(ALREADY_RUNNING.to_owned()),
            None => Ok(self.config.proxy_config()),
        }
    }

    /// Notes that the proxy runs.
    pub fn proxy_started(&mut self, handle: H)
        requires
            old(self).proxy is None,
        ensures
            final(self).proxy == Some(handle),
            final(self).config == old(self).config,
    {
        self.proxy = Some(handle);
    }

    /// Gives up the handle on the running proxy, if one runs.
    pub fn stop_proxy(&mut self) -> (r: Option<H>)
        ensures
            r == old(self).proxy,
            final(self).proxy is None,
            final(self).config == old(self).config,
    {
        self.proxy.take()
    }

    /// What the user interface is told.
    pub fn status(&self) -> (r: Status)
        ensures
            r.running == (self.proxy is Some),
            r.port == DEFAULT_PORT,
            text::views(r.hosts@) == text::views(self.config.hosts@),
    {
        Status {
            running: self.proxy.is_some(),
            port: DEFAULT_PORT,
            hosts: copy_list(self.config.hosts.as_slice()),
        }
    }

    /// Takes over a new list of hosts. A proxy that runs has to be started anew to follow it: its
    /// handle is given up, with what to set the new one up with.
    pub fn set_hosts(&mut self, hosts: &[String]) -> (r: Option<(H, ProxyConfig)>)
        ensures
            text::views(final(self).config.hosts@) == canonical_hosts(text::views(hosts@)),
            final(self).config.routes@ == old(self).config.routes@,
            final(self).proxy is None,
            match r {
                Some((handle, cfg)) => old(self).proxy == Some(handle) && cfg.port == DEFAULT_PORT
                    && cfg.hosts@ == canonical_hosts(text::views(hosts@)).to_set() && cfg.routes@
                    == old(self).config.routes@,
                None => old(self).proxy is None,
            },
    {
        self.config.set_hosts(hosts);
        match self.proxy.take() {
            Some(handle) => Some((handle, self.config.proxy_config())),
            None => None,
        }
    }
}

/// The text of any error that can be shown.
pub fn cmd_err<E: std::fmt::Display>(e: E) -> (r: String)
    ensures
        vstd::string::to_string_from_display_ensures::<E>(&e, r),
{
    e.to_string()
}

/// Merging keeps the list as it was, at the front.
proof fn lemma_merged_keeps(list: Seq<Seq<char>>, more: Seq<Seq<char>>)
    ensures
        list.len() <= merged(list, more).len(),
        merged(list, more).take(list.len() as int) == list,
    decreases more.len(),
{
    if more.len() == 0 {
        assert(list.take(list.len() as int) =~= list);
    } else {
        lemma_merged_keeps(list, more.drop_last());
        let m = merged(list, more.drop_last());
        assert(m.push(more.last()).take(list.len() as int) =~= m.take(list.len() as int));
    }
}

/// Merging makes the list hold what was to be added, and nothing else that is new.
proof fn lemma_merged_holds(list: Seq<Seq<char>>, more: Seq<Seq<char>>, h: Seq<char>)
    ensures
        merged(list, more).contains(h) <==> (list.contains(h) || more.contains(h)),
    decreases more.len(),
{
    if more.len() > 0 {
        let init = more.drop_last();
        let m = merged(list, init);
        let last = more.last();
        lemma_merged_holds(list, init, h);
        assert(more.contains(h) <==> (init.contains(h) || h == last)) by {
            if more.contains(h) {
                let i = choose|i: int| 0 <= i < more.len() && more[i] == h;
                if i < init.len() {
                    assert(init[i] == h);
                }
            }
            if init.contains(h) {
                let i = choose|i: int| 0 <= i < init.len() && init[i] == h;
                assert(more[i] == h);
            }
            if h == last {
                assert(more[more.len() - 1] == h);
            }
        }
        let p = m.push(last);
        assert(p.contains(h) <==> (m.contains(h) || h == last)) by {
            if p.contains(h) {
                let i = choose|i: int| 0 <= i < p.len() && p[i] == h;
                if i < m.len() {
                    assert(m[i] == h);
                }
            }
            if m.contains(h) {
                let i = choose|i: int| 0 <= i < m.len() && m[i] == h;
                assert(p[i] == h);
            }
            if h == last {
                assert(p[m.len() as int] == h);
            }
        }
    }
}

/// Loaded settings keep the hosts that were stored, in their order, and hold every default host,
/// and no host but these.
pub proof fn law_loading_adds_defaults(stored: StoredConfig)
    ensures
        ({
            let hosts = merged(stored_hosts(stored), default_hosts());
            &&& stored_hosts(stored).len() <= hosts.len()
            &&& hosts.take(stored_hosts(stored).len() as int) == stored_hosts(stored)
            &&& forall|h: Seq<char>|
                hosts.contains(h) <==> #[trigger] stored_hosts(stored).contains(h)
                    || default_hosts().contains(h)
        }),
{
    lemma_merged_keeps(stored_hosts(stored), default_hosts());
    assert forall|h: Seq<char>|
        merged(stored_hosts(stored), default_hosts()).contains(h) <==> #[trigger] stored_hosts(
            stored,
        ).contains(h) || default_hosts().contains(h) by {
        lemma_merged_holds(stored_hosts(stored), default_hosts(), h);
    }
}

/// A list that holds all that is to be added stays as it is.
proof fn lemma_nothing_to_add(list: Seq<Seq<char>>, more: Seq<Seq<char>>)
    requires
        forall|i: int| 0 <= i < more.len() ==> list.contains(#[trigger] more[i]),
    ensures
        merged(list, more) == list,
    decreases more.len(),
{
    if more.len() > 0 {
        let init = more.drop_last();
        assert forall|i: int| 0 <= i < init.len() implies list.contains(#[trigger] init[i]) by {
            assert(init[i] == more[i]);
        }
        lemma_nothing_to_add(list, init);
        assert(list.contains(more[more.len() - 1]));
    }
}

/// Settings that were loaded, stored and loaded again are the same; in particular the defaults
/// are loaded as they are.
pub proof fn law_loading_again_changes_nothing(list: Seq<Seq<char>>)
    ensures
        merged(merged(list, default_hosts()), default_hosts()) == merged(list, default_hosts()),
        merged(default_hosts(), default_hosts()) == default_hosts(),
{
    let m = merged(list, default_hosts());
    assert forall|i: int| 0 <= i < default_hosts().len() implies m.contains(
        #[trigger] default_hosts()[i],
    ) by {
        lemma_merged_holds(list, default_hosts(), default_hosts()[i]);
    }
    lemma_nothing_to_add(m, default_hosts());
    lemma_nothing_to_add(default_hosts(), default_hosts());
}

/// Every host that the user lists is accelerated, and so is each of its subdomains, however the
/// list writes it.
pub proof fn law_listed_hosts_are_accelerated(
    list: Seq<Seq<char>>,
    host: Seq<char>,
    label: Seq<char>,
)
    requires
        list.contains(host),
    ensures
        hosts::accelerated(canonical_hosts(list).to_set(), authority::canonical(host)),
        hosts::accelerated(
            canonical_hosts(list).to_set(),
            label + seq!['.'] + authority::canonical(host),
        ),
{
    let i = choose|i: int| 0 <= i < list.len() && list[i] == host;
    let c = authority::canonical(host);
    assert(canonical_hosts(list)[i] == c);
    assert(canonical_hosts(list).to_set().contains(c) && hosts::covers(c, c));
    hosts::law_subdomains_are_accelerated(canonical_hosts(list).to_set(), label, c);
}

/// A tunnel to a host that the user lists is decrypted, whatever the port and however the list
/// writes the host; a tunnel to a host that no listed one covers goes to its upstream as it is.
pub proof fn law_listed_hosts_are_decrypted(
    list: Seq<Seq<char>>,
    routes: Map<Seq<char>, Seq<char>>,
    host: Seq<char>,
    digits: Seq<char>,
    port: u16,
)
    requires
        text::parsed_u16(digits) == Some(port),
    ensures
        ({
            let hosts = canonical_hosts(list).to_set();
            let name = authority::canonical(host);
            let plan = proxy::connect_plan(hosts, routes, host + seq![':'] + digits);
            &&& list.contains(host) ==> plan.upstream is None
            &&& (forall|i: int| 0 <= i < list.len() ==> !hosts::covers(
                authority::canonical(#[trigger] list[i]),
                name,
            )) ==> plan.upstream == Some(proxy::upstream(routes, name, port))
        }),
{
    let canonical = canonical_hosts(list);
    let name = authority::canonical(host);
    proxy::law_only_accelerated_tunnels_are_decrypted(
        canonical.to_set(),
        routes,
        host,
        digits,
        port,
    );
    if list.contains(host) {
        law_listed_hosts_are_accelerated(list, host, Seq::empty());
    }
    if hosts::accelerated(canonical.to_set(), name) {
        let base = choose|base: Seq<char>|
            canonical.to_set().contains(base) && #[trigger] hosts::covers(base, name);
        let i = choose|i: int| 0 <= i < canonical.len() && canonical[i] == base;
        assert(hosts::covers(authority::canonical(list[i]), name));
    }
}

} // verus!
