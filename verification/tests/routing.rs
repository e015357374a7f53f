use steam_accelerator::authority::{
    absolute_path, absolute_target_authority, authority_in_target, host_from_header,
    normalize_host, split_host_port,
};
use steam_accelerator::fields::rewrite_host;
use steam_accelerator::hosts::{holds, HostSet, RouteTable};
use steam_accelerator::proxy::{
    relay_report, ConnectRoute, Proxy, ProxyConfig, ProxyStats, StreamPlan, CONNECT_ESTABLISHED,
    TUNNEL_PORT,
};

fn proxy(hosts: &[&str], routes: &[(&str, &str)]) -> Proxy<(), ()> {
    let list: Vec<String> = hosts.iter().map(|h| h.to_string()).collect();
    let mut table = RouteTable::new();
    for (host, target) in routes {
        table.insert(host.to_string(), target.to_string());
    }
    let cfg = ProxyConfig { port: 26561, hosts: HostSet::from_list(&list), routes: table };
    Proxy::new(cfg, (), ())
}

fn strings(list: &[&str]) -> Vec<String> {
    list.iter().map(|s| s.to_string()).collect()
}

#[test]
fn host_and_port_are_taken_apart() {
    assert_eq!(split_host_port("github.com:443", 0), ("github.com".to_string(), Some(443)));
    assert_eq!(split_host_port("github.com", 80), ("github.com".to_string(), None));
    assert_eq!(split_host_port("github.com:", 80), ("github.com:".to_string(), None));
    assert_eq!(split_host_port("github.com:65535", 0), ("github.com".to_string(), Some(65535)));
    assert_eq!(split_host_port("github.com:65536", 0), ("github.com:65536".to_string(), None));
    assert_eq!(split_host_port("github.com:+80", 0), ("github.com".to_string(), Some(80)));
    assert_eq!(split_host_port("github.com:-1", 0), ("github.com:-1".to_string(), None));
    assert_eq!(split_host_port("github.com:007", 0), ("github.com".to_string(), Some(7)));
    assert_eq!(split_host_port("[::1]:8080", 0), ("[::1]".to_string(), Some(8080)));
    assert_eq!(split_host_port("", 0), (String::new(), None));
}

#[test]
fn hosts_are_brought_into_canonical_form() {
    assert_eq!(normalize_host("GitHub.COM:443"), "github.com");
    assert_eq!(normalize_host("github.com..."), "github.com");
    assert_eq!(normalize_host("github.com.:443"), "github.com");
    assert_eq!(normalize_host("\u{c4}PI.Example"), "\u{e4}pi.example");
    assert_eq!(normalize_host("\u{39f}\u{394}\u{39f}\u{3a3}"), "\u{3bf}\u{3b4}\u{3bf}\u{3c2}");
    assert_eq!(normalize_host(""), "");
    assert_eq!(normalize_host(normalize_host("A.B.:1").as_str()), "a.b");
}

#[test]
fn absolute_targets_name_an_authority() {
    let named = absolute_target_authority("http://example.com:8080/a?b");
    assert_eq!(named, Some(("example.com".to_string(), Some(8080))));
    let secure = absolute_target_authority("https://example.com?x=/y");
    assert_eq!(secure, Some(("example.com".to_string(), None)));
    let fragment = absolute_target_authority("http://example.com#top");
    assert_eq!(fragment, Some(("example.com".to_string(), None)));
    let zero = absolute_target_authority("http://example.com:0/");
    assert_eq!(zero, Some(("example.com".to_string(), None)));
    assert_eq!(absolute_target_authority("/index.html"), None);
    assert_eq!(absolute_target_authority("HTTP://example.com/"), None);
    assert_eq!(absolute_target_authority("ftp://example.com/"), None);
    assert_eq!(absolute_target_authority("http://"), Some((String::new(), None)));
}

#[test]
fn paths_begin_with_a_slash() {
    assert_eq!(absolute_path("http://example.com/a/b?c=d"), "/a/b?c=d");
    assert_eq!(absolute_path("https://example.com"), "/");
    assert_eq!(absolute_path("http://example.com?q"), "/?q");
    assert_eq!(absolute_path("http://example.com?q=a/b"), "/?q=a/b");
    assert_eq!(absolute_path("http://example.com#top/x"), "/");
    assert_eq!(absolute_path("http://example.com/?q#f"), "/?q#f");
    assert_eq!(absolute_path("/plain"), "/plain");
    assert_eq!(absolute_path("*"), "/");
}

#[test]
fn the_first_host_line_counts() {
    let lines = strings(&["Accept: */*", "HoSt:  Example.COM:81 ", "Host: other.org"]);
    assert_eq!(host_from_header(&lines), Some(("example.com".to_string(), Some(81))));
    let zero = strings(&["host: example.com:0"]);
    assert_eq!(host_from_header(&zero), Some(("example.com:0".to_string(), None)));
    let bare = strings(&["Host:example.com"]);
    assert_eq!(host_from_header(&bare), Some(("example.com".to_string(), None)));
    assert_eq!(host_from_header(&strings(&["X-Host: a", ""])), None);
    assert_eq!(host_from_header(&[]), None);
}

#[test]
fn accelerated_hosts_cover_their_subdomains() {
    let p = proxy(&["githubassets.com", "steampowered.com"], &[]);
    assert!(p.is_accel_host("githubassets.com"));
    assert!(p.is_accel_host("github.githubassets.com"));
    assert!(p.is_accel_host("a.b.steampowered.com"));
    assert!(!p.is_accel_host("notgithubassets.com"));
    assert!(!p.is_accel_host("githubassets.com.evil.org"));
    assert!(!p.is_accel_host("com"));
    assert!(!p.is_accel_host(""));
    assert!(!proxy(&[], &[]).is_accel_host("github.com"));
}

#[test]
fn host_sets_hold_each_name_once() {
    let set = HostSet::from_list(&strings(&["a", "b", "a"]));
    assert_eq!(set.len(), 2);
    assert!(set.contains("a"));
    assert!(!set.contains("c"));
    assert!(set.clone().contains("b"));
    assert!(holds(&strings(&["x", "y"]), "y"));
    assert!(!holds(&strings(&["x", "y"]), "Y"));
}

#[test]
fn a_later_route_replaces_an_earlier_one() {
    let mut table = RouteTable::new();
    table.insert("a".to_string(), "one:1".to_string());
    table.insert("b".to_string(), "two:2".to_string());
    table.insert("a".to_string(), "three:3".to_string());
    assert_eq!(table.get("a"), Some(&"three:3".to_string()));
    assert_eq!(table.get("b"), Some(&"two:2".to_string()));
    assert_eq!(table.get("c"), None);
    assert_eq!(table.list().len(), 2);
    assert_eq!(table.clone().get("b"), Some(&"two:2".to_string()));
}

#[test]
fn routes_lead_to_their_targets() {
    let p = proxy(&[], &[("a.com", "10.0.0.1:8443"), ("b.com", "fast.b.com")]);
    assert_eq!(p.upstream_for("a.com", 443), ("10.0.0.1".to_string(), 8443));
    assert_eq!(p.upstream_for("b.com", 443), ("fast.b.com".to_string(), 443));
    assert_eq!(p.upstream_for("c.com", 80), ("c.com".to_string(), 80));
}

#[test]
fn accelerated_tunnels_are_decrypted() {
    let p = proxy(&["github.com"], &[("github.com", "elsewhere:1")]);
    let plan = p.handle_connect(b"CONNECT API.GitHub.com.:8443 HTTP/1.1\r\nHost: x\r\n\r\n");
    assert_eq!(plan.host, "api.github.com");
    assert_eq!(plan.port, 8443);
    assert!(matches!(plan.route, ConnectRoute::Mitm));
}

#[test]
fn other_tunnels_are_passed_through() {
    let p = proxy(&["github.com"], &[("cdn.org", "10.0.0.9:9443")]);
    let plan = p.connect_to("CONNECT example.com HTTP/1.1\r");
    assert_eq!(plan.port, TUNNEL_PORT);
    match plan.route {
        ConnectRoute::Tunnel { host, port } => {
            assert_eq!((host.as_str(), port), ("example.com", 443));
        }
        ConnectRoute::Mitm => panic!("decrypted"),
    }
    match p.connect_to("CONNECT cdn.org:443 HTTP/1.1").route {
        ConnectRoute::Tunnel { host, port } => {
            assert_eq!((host.as_str(), port), ("10.0.0.9", 9443));
        }
        ConnectRoute::Mitm => panic!("decrypted"),
    }
}

#[test]
fn a_connect_without_a_target_goes_nowhere() {
    let p = proxy(&["github.com"], &[]);
    let plan = p.handle_connect(b"CONNECT");
    assert_eq!(plan.host, "");
    match plan.route {
        ConnectRoute::Tunnel { host, port } => assert_eq!((host.as_str(), port), ("", 443)),
        ConnectRoute::Mitm => panic!("decrypted"),
    }
}

#[test]
fn bytes_that_are_no_text_are_replaced() {
    let p = proxy(&[], &[]);
    let plan = p.handle_connect(b"CONNECT a\xffb.com:443 HTTP/1.1\r\n\r\n");
    assert_eq!(plan.host, "a\u{fffd}b.com");
}

#[test]
fn origin_form_is_sent_unchanged() {
    let p = proxy(&[], &[]);
    let head = b"GET /a HTTP/1.0\r\nHost: Example.com:8080\r\nX: y\r\n\r\nbody";
    let plan = p.handle_plain(head).unwrap();
    assert_eq!(plan.method, "GET");
    assert_eq!(plan.hostname, "example.com");
    assert_eq!((plan.up_host.as_str(), plan.up_port), ("example.com", 8080));
    assert_eq!(plan.bytes, head.to_vec());
}

#[test]
fn absolute_form_is_rewritten() {
    let p = proxy(&[], &[("example.com", "10.1.1.1")]);
    let head = b"POST  http://Example.com/a?b HTTP/1.1\r\nHost: ignored.org\r\n\r\n";
    let plan = p.handle_plain(head).unwrap();
    assert_eq!(plan.hostname, "example.com");
    assert_eq!((plan.up_host.as_str(), plan.up_port), ("10.1.1.1", 80));
    let sent = b"POST /a?b HTTP/1.1\r\nHost: Example.com\r\n\r\n".to_vec();
    assert_eq!(plan.bytes, sent);
}

#[test]
fn the_host_field_is_written_anew() {
    let p = proxy(&[], &[]);
    let head = b"GET http://e.com:81/ HTTP/1.1\r\nA: 1\r\nhOsT:x\r\nHosted: 2\r\nHost : y\r\nHOST: z\r\n\r\nHost: body\r\n";
    let plan = p.handle_plain(head).unwrap();
    assert_eq!((plan.up_host.as_str(), plan.up_port), ("e.com", 81));
    let sent = b"GET / HTTP/1.1\r\nHost: e.com:81\r\nA: 1\r\nHosted: 2\r\nHost : y\r\n\r\nHost: body\r\n";
    assert_eq!(plan.bytes, sent.to_vec());
}

#[test]
fn host_fields_are_rewritten_in_bytes() {
    assert_eq!(rewrite_host(b"", "e.com"), b"".to_vec());
    assert_eq!(rewrite_host(b"\r\n", "e.com"), b"\r\nHost: e.com\r\n".to_vec());
    assert_eq!(rewrite_host(b"\r\nX: \xff", "e"), b"\r\nHost: e\r\nX: \xff".to_vec());
    assert_eq!(rewrite_host(b"\r\n\r\nbody", "e"), b"\r\nHost: e\r\n\r\nbody".to_vec());
}

#[test]
fn the_authority_is_found_as_it_is_written() {
    assert_eq!(authority_in_target("http://E.com:0?x"), Some("E.com:0".to_string()));
    assert_eq!(authority_in_target("https://u@e.com/"), Some("u@e.com".to_string()));
    assert_eq!(authority_in_target("/x"), None);
}

#[test]
fn the_scheme_gives_the_default_port() {
    let p = proxy(&[], &[]);
    let plan = p.handle_plain(b"GET https://example.com HTTP/1.1\r\n\r\n").unwrap();
    assert_eq!(plan.up_port, 443);
    assert_eq!(plan.bytes, b"GET / HTTP/1.1\r\nHost: example.com\r\n\r\n".to_vec());
    let asked = p.handle_plain(b"GET https://example.com:444/ HTTP/1.1\r\n\r\n").unwrap();
    assert_eq!(asked.up_port, 444);
}

#[test]
fn missing_words_get_defaults() {
    let p = proxy(&[], &[]);
    let plan = p.handle_plain(b"GET http://example.com/x").unwrap();
    assert_eq!(plan.bytes, b"GET /x HTTP/1.1".to_vec());
    let none = p.handle_plain(b"\r\nHost: example.com\r\n\r\n").unwrap();
    assert_eq!(none.method, "GET");
    assert_eq!(none.bytes, b"\r\nHost: example.com\r\n\r\n".to_vec());
}

#[test]
fn bytes_after_the_request_line_are_kept() {
    let p = proxy(&[], &[]);
    let head = b"GET http://e.com/\xff HTTP/1.1\r\nX: \xfe\xff\r\n\r\n\x00\x80";
    let plan = p.handle_plain(head).unwrap();
    let mut sent = "GET /\u{fffd} HTTP/1.1".as_bytes().to_vec();
    sent.extend_from_slice(b"\r\nHost: e.com\r\nX: \xfe\xff\r\n\r\n\x00\x80");
    assert_eq!(plan.bytes, sent);
}

#[test]
fn origin_form_is_sent_unchanged_whatever_follows() {
    let p = proxy(&[], &[]);
    let head = b"GET /a HTTP/1.1\r\nHost: e.com\r\nX: \xc3\xff\r\n\r\n\x80\xfe";
    let plan = p.handle_plain(head).unwrap();
    assert_eq!(plan.bytes, head.to_vec());
    let odd = b"GET /\xff HTTP/1.1\r\nHost: e.com\r\n\r\n";
    assert_eq!(p.handle_plain(odd).unwrap().bytes, odd.to_vec());
}

#[test]
fn what_follows_the_names_does_not_matter() {
    let p = proxy(&["github.com"], &[("e.com", "10.0.0.1:81")]);
    let head = b"POST /a HTTP/1.1\r\nHost: E.com\r\n\r\n\xff\xfe\r\nHost: other.org\r\n";
    let plan = p.handle_plain(head).unwrap();
    assert_eq!(plan.hostname, "e.com");
    assert_eq!((plan.up_host.as_str(), plan.up_port), ("10.0.0.1", 81));
    let tunnel = p.handle_connect(b"CONNECT github.com:444 HTTP/\xff\r\n\r\n");
    assert_eq!((tunnel.host.as_str(), tunnel.port), ("github.com", 444));
    assert!(matches!(tunnel.route, ConnectRoute::Mitm));
}

#[test]
fn connections_are_told_apart_by_method() {
    let p = proxy(&["github.com"], &[]);
    let connect = p.handle_stream(b"CONNECT github.com:443 HTTP/1.1\r\n\r\n");
    assert!(matches!(connect, StreamPlan::Connect(_)));
    let plain = p.handle_stream(b"GET http://github.com/ HTTP/1.1\r\n\r\n");
    assert!(matches!(plain, StreamPlan::Plain(_)));
    let lower = p.handle_stream(b"connect github.com:443 HTTP/1.1\r\n\r\n");
    assert!(matches!(lower, StreamPlan::Close));
    let longer = p.handle_stream(b"CONNECTX http://github.com/ HTTP/1.1\r\n\r\n");
    assert!(matches!(longer, StreamPlan::Plain(plan) if plan.method == "CONNECTX"));
    assert!(matches!(p.handle_stream(b"CONNECT"), StreamPlan::Connect(_)));
    for c in '\0'..=char::MAX {
        let head = format!("CONNECT{c}github.com:443 HTTP/1.1\r\nHost: e.com\r\n\r\n");
        let tunnel = matches!(p.handle_stream(head.as_bytes()), StreamPlan::Connect(_));
        assert_eq!(tunnel, c.is_whitespace());
    }
    let split = p.handle_stream(b"CONNECT\xc2\xa0github.com:8443\r\n\r\n");
    assert!(matches!(split, StreamPlan::Connect(plan) if plan.host == "github.com"));
    let cut = p.handle_stream(b"CONNECT\xc2 github.com:443\r\nHost: e.com\r\n\r\n");
    assert!(matches!(cut, StreamPlan::Plain(_)));
    let spaced = p.handle_stream(b" CONNECT github.com:443\r\nHost: e.com\r\n\r\n");
    assert!(matches!(spaced, StreamPlan::Plain(_)));
    assert!(matches!(p.handle_stream(b"CONNECT\tgithub.com:443\r\n"), StreamPlan::Connect(_)));
    assert!(matches!(p.handle_stream(b""), StreamPlan::Close));
}

#[test]
fn the_reply_to_connect_is_a_complete_head() {
    assert_eq!(CONNECT_ESTABLISHED, "HTTP/1.1 200 Connection Established\r\n\r\n");
}

#[test]
fn traffic_is_counted() {
    let mut stats = ProxyStats::default();
    assert_eq!(stats.total(), (0, 0));
    stats.add_up(10);
    stats.add_down(7);
    stats.add_up(0);
    assert_eq!(stats.total(), (10, 7));
    stats.add_down(u64::MAX);
    assert_eq!(stats.total(), (10, 6));
}

#[test]
fn relays_report_what_they_moved() {
    assert_eq!(relay_report((5, 5), (15, 5)), Some((10, 0)));
    assert_eq!(relay_report((5, 5), (5, 6)), Some((0, 1)));
    assert_eq!(relay_report((5, 5), (5, 5)), None);
}
