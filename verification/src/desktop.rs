//! What the desktop application decides around the proxy: where the root certificate is put and
//! how it is installed, and what the tray icon does.

use crate::text;
use vstd::prelude::*;
use vstd::string::StringExecFns;

verus! {

/// What a user is told when no directory for the certificate is known.
pub const NO_DIRECTORY: &'static str = "无法定位可执行文件目录";

/// What a user is told when the certificate has been installed.
pub const INSTALLED: &'static str = "根证书已安装到系统信任库";

/// What a user is told when the certificate has not been installed.
pub const NOT_INSTALLED: &'static str = "安装未完成(可能已被取消或无权限)";

/// The name of the file that the root certificate is put in.
pub const ROOT_FILE: &'static str = "root-ca.pem";

/// The directory that the root certificate is put in: that of the program or, failing that, the
/// current one.
pub fn certificate_dir<P>(program: Option<P>, current: Option<P>) -> (r: Result<P, String>)
    ensures
        match (program, current) {
            (Some(p), _) => r == Ok::<P, String>(p),
            (None, Some(p)) => r == Ok::<P, String>(p),
            (None, None) => r matches Err(e) && e@ == NO_DIRECTORY@,
        },
{
    match program {
        Some(p) => Ok(p),
        None => match current {
            Some(p) => Ok(p),
            None => Err(NO_DIRECTORY.to_owned()),
        },
    }
}

/// The commands that put the certificate at `path` among those that the system trusts.
pub open spec fn install_commands(path: Seq<char>) -> Seq<char> {
    "install -m 0644 '"@ + path
        + "' /usr/local/share/ca-certificates/steam-accelerator-root-ca.crt && update-ca-certificates 2>/dev/null"@
}

/// The commands that put the certificate at `path` among those that the system trusts.
pub fn install_script(path: &str) -> (r: String)
    ensures
        r@ == install_commands(path@),
{
    let mut r = "install -m 0644 '".to_owned();
    r.append(path);
    r.append(
        "' /usr/local/share/ca-certificates/steam-accelerator-root-ca.crt && update-ca-certificates 2>/dev/null",
    );
    r
}

/// What a user is told once those commands have run.
pub fn install_result(success: bool) -> (r: Result<String, String>)
    ensures
        match r {
            Ok(message) => success && message@ == INSTALLED@,
            Err(message) => !success && message@ == NOT_INSTALLED@,
        },
{
    if success {
        Ok(INSTALLED.to_owned())
    } else {
        Err(NOT_INSTALLED.to_owned())
    }
}

/// The listing names a library that tray icons need.
pub open spec fn names_tray_library(listing: Seq<char>) -> bool {
    let low = text::lowered(listing);
    text::occurs(low, "libayatana-appindicator3"@) || text::occurs(low, "libappindicator3"@)
}

/// Whether `part` stands in `s`.
fn contains_text(s: &[char], part: &str) -> (b: bool)
    ensures
        b == text::occurs(s@, part@),
{
    let p = text::chars_of(part);
    proof {
        text::lemma_first_occurrence(s@, part@);
    }
    match text::find_text(s, p.as_slice()) {
        Some(i) => {
            assert(text::occurs_at(s@, part@, i as int));
            true
        },
        None => false,
    }
}

/// Whether the listing of the installed libraries names one that tray icons need.
pub fn lists_tray_library(listing: &str) -> (b: bool)
    ensures
        b == names_tray_library(listing@),
{
    let low = text::to_lowercase(listing);
    let cs = text::chars_of(low.as_str());
    contains_text(cs.as_slice(), "libayatana-appindicator3") || contains_text(
        cs.as_slice(),
        "libappindicator3",
    )
}

/// Whether tray icons can be shown, by what `ldconfig -p` put out; `None` where it did not run.
pub fn appindicator_available(output: Option<&[u8]>) -> (b: bool)
    ensures
        b == (match output {
            Some(bytes) => names_tray_library(text::lossy(bytes@)),
            None => false,
        }),
{
    match output {
        Some(bytes) => lists_tray_library(text::from_utf8_lossy(bytes).as_str()),
        None => false,
    }
}

/// What becomes of the tray icon.
#[derive(Clone, Copy, Debug, PartialEq, Eq)]
pub enum TrayPlan {
    /// It is shown.
    Show,
    /// It is left out for want of a library.
    NoLibrary,
    /// It is left out for want of a picture.
    NoIcon,
}

/// Decides what becomes of the tray icon.
pub fn tray_plan(available: bool, has_icon: bool) -> (r: TrayPlan)
    ensures
        r is NoLibrary <==> !available,
        r is NoIcon <==> available && !has_icon,
{
    if !available {
        TrayPlan::NoLibrary
    } else if !has_icon {
        TrayPlan::NoIcon
    } else {
        TrayPlan::Show
    }
}

/// What an entry of the tray menu does.
#[derive(Clone, Copy, Debug, PartialEq, Eq)]
pub enum MenuAction {
    /// Shows the main window.
    ShowWindow,
    /// Ends the program.
    Quit,
    /// Nothing.
    Ignore,
}

/// The action of the menu entry `id`.
pub open spec fn action_of(id: Seq<char>) -> MenuAction {
    if id == "show"@ {
        MenuAction::ShowWindow
    } else if id == "quit"@ {
        MenuAction::Quit
    } else {
        MenuAction::Ignore
    }
}

/// The action of the menu entry `id`.
pub fn menu_action(id: &str) -> (r: MenuAction)
    ensures
        r == action_of(id@),
{
    let id = id.to_owned();
    if id == "show".to_owned() {
        MenuAction::ShowWindow
    } else if id == "quit".to_owned() {
        MenuAction::Quit
    } else {
        MenuAction::Ignore
    }
}

} // verus!
