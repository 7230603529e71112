//! Reading the command line: share a path, open the idle window, or install
//! or remove the context menu.
use vstd::prelude::*;

use crate::errors::LanQrError;
use crate::models::{LaunchMode, ShareTarget};

verus! {

/// The flag that installs the context menu.
pub const INSTALL_FLAG: &'static str = "--install-context-menu";

/// The flag that removes the context menu.
pub const UNINSTALL_FLAG: &'static str = "--uninstall-context-menu";

/// What the command line asks for.
pub enum ParsedLaunch {
    /// Open the window in this mode.
    Gui(LaunchMode),
    InstallContextMenu,
    UninstallContextMenu,
    /// Share this path, once [`validate_target`] accepts it.
    Target(String),
}

/// What the caller found at a target path.
pub enum TargetProbe {
    /// Nothing exists there.
    Missing,
    /// Its metadata may not be read.
    AccessDenied,
    /// Its metadata could not be read; the text of the I/O error.
    Unreadable(String),
    /// It exists: whether it is a folder, and its file name if the path has one.
    Found { is_dir: bool, file_name: Option<String> },
}

/// What the command line `args` (without the program) asks for: no argument
/// opens the idle window, a lone flag installs or removes the menu, otherwise
/// the first argument is the path to share.
pub fn parse_launch_mode(args: &Vec<String>) -> (res: ParsedLaunch)
    ensures
        args@.len() == 0 ==> res matches ParsedLaunch::Gui(LaunchMode::Idle),
        args@.len() == 1 && args@[0]@ == INSTALL_FLAG@ ==> res is InstallContextMenu,
        args@.len() == 1 && args@[0]@ == UNINSTALL_FLAG@ ==> res is UninstallContextMenu,
        args@.len() > 0 && !(args@.len() == 1 && (args@[0]@ == INSTALL_FLAG@ || args@[0]@
            == UNINSTALL_FLAG@)) ==> (res matches ParsedLaunch::Target(p) && p@ == args@[0]@),
{
    if args.len() == 0 {
        return ParsedLaunch::Gui(LaunchMode::Idle);
    }
    proof {
        reveal_strlit("--install-context-menu");
        reveal_strlit("--uninstall-context-menu");
        assert(INSTALL_FLAG@.len() != UNINSTALL_FLAG@.len());
    }
    if args.len() == 1 {
        let a = crate::text::chars_of(args[0].as_str());
        let install = crate::text::chars_of(INSTALL_FLAG);
        let uninstall = crate::text::chars_of(UNINSTALL_FLAG);
        if crate::text::chars_equal(a.as_slice(), install.as_slice()) {
            return ParsedLaunch::InstallContextMenu;
        }
        if crate::text::chars_equal(a.as_slice(), uninstall.as_slice()) {
            return ParsedLaunch::UninstallContextMenu;
        }
    }
    ParsedLaunch::Target(String::from_str(args[0].as_str()))
}

/// The share target at `path`, given what was found there: a missing path is
/// `TargetNotFound`, an unreadable one `TargetAccessDenied` or a message; a
/// found one is named by its file name, or by the whole path if it has none.
pub fn validate_target(path: &str, probe: TargetProbe) -> (res: Result<ShareTarget, LanQrError>)
    ensures
        probe is Missing ==> (res matches Err(LanQrError::TargetNotFound(p)) && p@ == path@),
        probe is AccessDenied ==> (res matches Err(LanQrError::TargetAccessDenied(p)) && p@ == path@),
        probe matches TargetProbe::Unreadable(e) ==> (res matches Err(LanQrError::Message(m)) && m@
            == "读取目标路径失败："@ + e@),
        probe matches TargetProbe::Found { is_dir, file_name } ==> (res matches Ok(t)
            && t.original_path@ == path@ && t.is_dir == is_dir && t.display_name@ == match file_name {
            Some(n) => n@,
            None => path@,
        }),
{
    match probe {
        TargetProbe::Missing => Err(LanQrError::TargetNotFound(String::from_str(path))),
        TargetProbe::AccessDenied => Err(LanQrError::TargetAccessDenied(String::from_str(path))),
        TargetProbe::Unreadable(e) => {
            let mut m = String::from_str("读取目标路径失败：");
            m.append(e.as_str());
            Err(LanQrError::Message(m))
        },
        TargetProbe::Found { is_dir, file_name } => {
            let display_name = match file_name {
                Some(n) => n,
                None => String::from_str(path),
            };
            Ok(ShareTarget { original_path: String::from_str(path), display_name, is_dir })
        },
    }
}

} // verus!
