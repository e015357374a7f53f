//! Laws of the application: settings, retries, the log and the desktop.

use crate::authority;
use crate::config;
use crate::desktop;
use crate::failure;
use crate::failure::FailureKind;
use crate::hosts;
use crate::logs;
use crate::pool;
use crate::pool::{SendAction, SendEvent, SendState};
use crate::text;
use crate::tls::SignatureScheme;
use vstd::prelude::*;

verus! {

/// The hosts that are accelerated by default are these, and no others.
pub proof fn law_default_hosts(host: Seq<char>)
    ensures
        config::default_hosts().contains(host) <==> host == "store.steampowered.com"@ || host
            == "steampowered.com"@ || host == "steamcommunity.com"@ || host
            == "api.steampowered.com"@ || host == "steamstatic.com"@ || host
            == "cdn.cloudflare.steamstatic.com"@ || host
            == "client-update.akamai.steamstatic.com"@ || host
            == "community.akamai.steamstatic.com"@ || host == "edge.steamstatic.com"@ || host
            == "steam-chat.com"@ || host == "steamusercontent.com"@ || host
            == "steamusercontent-a.akamaihd.net"@ || host == "github.com"@ || host
            == "api.github.com"@ || host == "githubusercontent.com"@ || host
            == "githubassets.com"@ || host == "raw.githubusercontent.com"@ || host
            == "codeload.github.com"@ || host == "avatars.githubusercontent.com"@ || host
            == "objects.githubusercontent.com"@ || host == "github-cloud.s3.amazonaws.com"@ || host
            == "cam.githubusercontent.com"@,
        config::default_hosts().len() == 22,
{
    let list = config::default_hosts();
    assert(list.len() == 22);
    assert(list[0] == "store.steampowered.com"@ && list[1] == "steampowered.com"@ && list[2]
        == "steamcommunity.com"@ && list[3] == "api.steampowered.com"@ && list[4]
        == "steamstatic.com"@ && list[5] == "cdn.cloudflare.steamstatic.com"@ && list[6]
        == "client-update.akamai.steamstatic.com"@ && list[7]
        == "community.akamai.steamstatic.com"@ && list[8] == "edge.steamstatic.com"@ && list[9]
        == "steam-chat.com"@ && list[10] == "steamusercontent.com"@);
    assert(list[11] == "steamusercontent-a.akamaihd.net"@ && list[12] == "github.com"@ && list[13]
        == "api.github.com"@ && list[14] == "githubusercontent.com"@ && list[15]
        == "githubassets.com"@ && list[16] == "raw.githubusercontent.com"@ && list[17]
        == "codeload.github.com"@ && list[18] == "avatars.githubusercontent.com"@ && list[19]
        == "objects.githubusercontent.com"@ && list[20] == "github-cloud.s3.amazonaws.com"@
        && list[21] == "cam.githubusercontent.com"@);
    if list.contains(host) {
        let i = choose|i: int| 0 <= i < list.len() && list[i] == host;
        assert(list[i] == host);
    }
}

/// Merging two lists puts behind the first those of the second that are not there yet, each once
/// and in the order of the second: one more entry of the second is put at the end, unless it is
/// there already.
pub proof fn law_merging(list: Seq<Seq<char>>, more: Seq<Seq<char>>, next: Seq<char>)
    ensures
        config::merged(list, Seq::empty()) == list,
        config::merged(list, more.push(next)) == (if config::merged(list, more).contains(next) {
            config::merged(list, more)
        } else {
            config::merged(list, more).push(next)
        }),
{
    assert(more.push(next).drop_last() =~= more);
    assert(more.push(next).last() == next);
}

/// Settings are loaded with what is stored where that can be read, and with the defaults
/// otherwise.
pub proof fn law_stored_settings(stored: config::StoredConfig)
    ensures
        stored matches config::StoredConfig::Found(c) ==> config::stored_hosts(stored)
            == text::views(c.hosts@) && config::stored_routes(stored) == c.routes@,
        !(stored is Found) ==> config::stored_hosts(stored) == config::default_hosts()
            && config::stored_routes(stored) == Map::<Seq<char>, Seq<char>>::empty(),
{
}

/// A new list of hosts is taken over entry by entry, each in its canonical form.
pub proof fn law_new_hosts(list: Seq<Seq<char>>)
    ensures
        config::canonical_hosts(list).len() == list.len(),
        forall|i: int|
            0 <= i < list.len() ==> #[trigger] config::canonical_hosts(list)[i]
                == authority::canonical(list[i]),
{
}

/// Of two routes for one host the later one counts, and every other stays.
pub proof fn law_routes(routes: Seq<hosts::Route>, route: hosts::Route, host: Seq<char>)
    ensures
        ({
            let before = hosts::routes_map(routes);
            let after = hosts::routes_map(routes.push(route));
            &&& hosts::routes_map(Seq::empty()) == Map::<Seq<char>, Seq<char>>::empty()
            &&& after.contains_key(route.host@) && after[route.host@] == route.target@
            &&& host != route.host@ ==> (after.contains_key(host) <==> before.contains_key(host))
            &&& host != route.host@ && before.contains_key(host) ==> after[host] == before[host]
        }),
{
    assert(routes.push(route).drop_last() =~= routes);
    assert(routes.push(route).last() == route);
}

/// The proxy listens on port 26561, and a user who starts it twice is told so.
pub proof fn law_listening()
    ensures
        config::DEFAULT_PORT == 26561,
        config::ALREADY_RUNNING@ == "代理已在运行"@,
{
}

/// A connection is made or not while a request waits, and answers it or fails while it is sent;
/// nothing happens to it once it is settled.
pub proof fn law_events(again: bool, event: SendEvent)
    ensures
        pool::fits(SendState::Waiting { again }, event) <==> event == SendEvent::Connected || event
            == SendEvent::NotConnected,
        pool::fits(SendState::Sending { again }, event) <==> event == SendEvent::Answered || event
            == SendEvent::Failed,
        !pool::fits(SendState::Done, event),
{
}

/// What is done about each event: a request is sent once it has a connection and given up where
/// none can be made; its response is handed on; and where its connection fails it is sent again
/// over a new one, unless it has been already.
pub proof fn law_every_event_is_acted_on(again: bool)
    ensures
        pool::next_step(SendState::Waiting { again }, SendEvent::Connected) == (
            SendState::Sending { again },
            SendAction::Send,
        ),
        pool::next_step(SendState::Waiting { again }, SendEvent::NotConnected) == (
            SendState::Done,
            SendAction::GiveUp,
        ),
        pool::next_step(SendState::Sending { again }, SendEvent::Answered) == (
            SendState::Done,
            SendAction::Respond,
        ),
        !again ==> pool::next_step(SendState::Sending { again }, SendEvent::Failed) == (
            SendState::Waiting { again: true },
            SendAction::Reconnect,
        ),
        again ==> pool::next_step(SendState::Sending { again }, SendEvent::Failed) == (
            SendState::Done,
            SendAction::GiveUp,
        ),
{
}

/// The log keeps as many lines as there are, up to 500, and these are the last, in their order.
pub proof fn law_the_last_500_lines(lines: Seq<Seq<char>>)
    ensures
        ({
            let kept = logs::after_all(Seq::empty(), lines);
            &&& lines.len() <= 500 ==> kept == lines
            &&& lines.len() > 500 ==> kept.len() == 500 && forall|i: int|
                0 <= i < 500 ==> #[trigger] kept[i] == lines[lines.len() - 500 + i]
        }),
{
    logs::law_last_lines_are_kept(lines);
}

/// One more line is put at the end of the log, and the oldest goes where there were 500.
pub proof fn law_one_more_line(log: Seq<Seq<char>>, line: Seq<char>)
    requires
        log.len() <= 500,
    ensures
        log.len() < 500 ==> logs::last_lines(log.push(line)) == log.push(line),
        log.len() == 500 ==> logs::last_lines(log.push(line)) == log.drop_first().push(line),
{
    if log.len() == 500 {
        assert(logs::last_lines(log.push(line)) =~= log.drop_first().push(line));
    }
}

/// A log line is the level in square brackets, a space and the message.
pub proof fn law_log_line(level: Seq<char>, message: Seq<char>)
    ensures
        logs::line_text(level, message) == "["@ + level + "] "@ + message,
{
    reveal_strlit("[");
    assert("["@ =~= seq!['[']);
}

/// The certificate is installed from the path, in quotes, under a name of its own, and the list
/// of trusted certificates is then brought up to date.
pub proof fn law_install_commands(path: Seq<char>)
    ensures
        desktop::install_commands(path) == "install -m 0644 '"@ + path
            + "' /usr/local/share/ca-certificates/steam-accelerator-root-ca.crt"@
            + " && update-ca-certificates 2>/dev/null"@,
{
    reveal_strlit(
        "' /usr/local/share/ca-certificates/steam-accelerator-root-ca.crt && update-ca-certificates 2>/dev/null",
    );
    reveal_strlit("' /usr/local/share/ca-certificates/steam-accelerator-root-ca.crt");
    reveal_strlit(" && update-ca-certificates 2>/dev/null");
    assert(desktop::install_commands(path) =~= "install -m 0644 '"@ + path
        + "' /usr/local/share/ca-certificates/steam-accelerator-root-ca.crt"@
        + " && update-ca-certificates 2>/dev/null"@);
}

/// What users are told about the root certificate, and the name of its file.
pub proof fn law_messages()
    ensures
        desktop::NO_DIRECTORY@ == "无法定位可执行文件目录"@,
        desktop::INSTALLED@ == "根证书已安装到系统信任库"@,
        desktop::NOT_INSTALLED@ == "安装未完成(可能已被取消或无权限)"@,
        desktop::ROOT_FILE@ == "root-ca.pem"@,
{
}

/// `part` stands in `s` at `i`.
pub open spec fn stands_at(s: Seq<char>, part: Seq<char>, i: int) -> bool {
    0 <= i && i + part.len() <= s.len() && forall|j: int|
        0 <= j < part.len() ==> s[i + j] == #[trigger] part[j]
}

/// Tray icons can be shown if and only if one of two libraries stands somewhere in the listing,
/// in any case.
pub proof fn law_tray_libraries(listing: Seq<char>)
    ensures
        desktop::names_tray_library(listing) <==> (exists|i: int|
            stands_at(text::lowered(listing), "libayatana-appindicator3"@, i)) || (exists|i: int|
            stands_at(text::lowered(listing), "libappindicator3"@, i)),
{
    let low = text::lowered(listing);
    lemma_occurs(low, "libayatana-appindicator3"@);
    lemma_occurs(low, "libappindicator3"@);
}

proof fn lemma_occurs(s: Seq<char>, part: Seq<char>)
    ensures
        text::occurs(s, part) <==> exists|i: int| stands_at(s, part, i),
{
    if text::occurs(s, part) {
        let i = choose|i: int| text::occurs_at(s, part, i);
        assert forall|j: int| 0 <= j < part.len() implies s[i + j] == #[trigger] part[j] by {
            assert(s.subrange(i, i + part.len())[j] == part[j]);
        }
        assert(stands_at(s, part, i));
    }
    if exists|i: int| stands_at(s, part, i) {
        let i = choose|i: int| stands_at(s, part, i);
        assert(s.subrange(i, i + part.len()) =~= part);
        assert(text::occurs_at(s, part, i));
    }
}

/// The tray menu has an entry that shows the window and one that ends the program, and nothing
/// else does either.
pub proof fn law_menu(id: Seq<char>)
    ensures
        desktop::action_of(id) is ShowWindow <==> id == "show"@,
        desktop::action_of(id) is Quit <==> id == "quit"@,
{
    reveal_strlit("show");
    reveal_strlit("quit");
    assert("show"@[0] != "quit"@[0]);
}

/// A connection that was refused, could not be made or failed in any way but by being lost is
/// worth a warning; one that was closed, reset, lost or timed out is not.
pub proof fn law_interruptions(kind: FailureKind)
    ensures
        failure::interruption(kind) <==> kind == FailureKind::ConnectionReset || kind
            == FailureKind::ConnectionAborted || kind == FailureKind::BrokenPipe || kind
            == FailureKind::NotConnected || kind == FailureKind::UnexpectedEof || kind
            == FailureKind::TimedOut || kind == FailureKind::WriteZero,
{
}

/// The codes of the schemes are those that TLS gives to them.
pub proof fn law_scheme_codes()
    ensures
        SignatureScheme::RsaPkcs1Sha256.spec_code() == 0x0401,
        SignatureScheme::RsaPkcs1Sha384.spec_code() == 0x0501,
        SignatureScheme::RsaPkcs1Sha512.spec_code() == 0x0601,
        SignatureScheme::EcdsaNistp256Sha256.spec_code() == 0x0403,
        SignatureScheme::EcdsaNistp384Sha384.spec_code() == 0x0503,
        SignatureScheme::RsaPssSha256.spec_code() == 0x0804,
        SignatureScheme::RsaPssSha384.spec_code() == 0x0805,
        SignatureScheme::RsaPssSha512.spec_code() == 0x0806,
        SignatureScheme::Ed25519.spec_code() == 0x0807,
{
}

} // verus!
