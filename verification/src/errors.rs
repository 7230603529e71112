//! The library's error type and the text each error shows.
use vstd::prelude::*;


verus! {

/// Everything that can go wrong while launching, sharing or installing.
/// Paths are carried as text; `Io` carries the text of the I/O error.
#[derive(Debug, Clone, PartialEq, Eq)]
pub enum LanQrError {
    TargetNotFound(String),
    TargetAccessDenied(String),
    ShareServiceStartFailed(String),
    NoLanIpv4,
    PortAllocationFailed,
    ContextMenuInstallFailed(String),
    ContextMenuUninstallFailed(String),
    ClipboardFailed(String),
    Message(String),
    Io(String),
}

/// The text an error displays: a fixed lead-in followed by its detail.
pub open spec fn error_display(e: LanQrError) -> Seq<char> {
    match e {
        LanQrError::TargetNotFound(p) => "目标路径不存在："@ + p@,
        LanQrError::TargetAccessDenied(p) => "无法访问目标路径："@ + p@,
        LanQrError::ShareServiceStartFailed(m) => "共享服务启动失败："@ + m@,
        LanQrError::NoLanIpv4 => "无法找到合适的局域网 IPv4"@,
        LanQrError::PortAllocationFailed => "端口分配失败"@,
        LanQrError::ContextMenuInstallFailed(m) => "右键菜单安装失败："@ + m@,
        LanQrError::ContextMenuUninstallFailed(m) => "右键菜单卸载失败："@ + m@,
        LanQrError::ClipboardFailed(m) => "复制链接失败："@ + m@,
        LanQrError::Message(m) => m@,
        LanQrError::Io(m) => m@,
    }
}

/// A string with the characters of `a` followed by those of `b`.
pub fn join_text(a: &str, b: &str) -> (res: String)
    ensures
        res@ == a@ + b@,
{
    let mut s = String::from_str(a);
    s.append(b);
    s
}

impl LanQrError {
    /// An equal copy of this error.
    pub fn duplicate(&self) -> (res: Self)
        ensures
            res == *self,
    {
        match self {
            LanQrError::TargetNotFound(p) => LanQrError::TargetNotFound(p.clone()),
            LanQrError::TargetAccessDenied(p) => LanQrError::TargetAccessDenied(p.clone()),
            LanQrError::ShareServiceStartFailed(m) => LanQrError::ShareServiceStartFailed(m.clone()),
            LanQrError::NoLanIpv4 => LanQrError::NoLanIpv4,
            LanQrError::PortAllocationFailed => LanQrError::PortAllocationFailed,
            LanQrError::ContextMenuInstallFailed(m) => LanQrError::ContextMenuInstallFailed(m.clone()),
            LanQrError::ContextMenuUninstallFailed(m) => LanQrError::ContextMenuUninstallFailed(
                m.clone(),
            ),
            LanQrError::ClipboardFailed(m) => LanQrError::ClipboardFailed(m.clone()),
            LanQrError::Message(m) => LanQrError::Message(m.clone()),
            LanQrError::Io(m) => LanQrError::Io(m.clone()),
        }
    }

    /// The text this error displays.
    pub fn display_text(&self) -> (res: String)
        ensures
            res@ == error_display(*self),
    {
        match self {
            LanQrError::TargetNotFound(p) => join_text("目标路径不存在：", p.as_str()),
            LanQrError::TargetAccessDenied(p) => join_text("无法访问目标路径：", p.as_str()),
            LanQrError::ShareServiceStartFailed(m) => join_text("共享服务启动失败：", m.as_str()),
            LanQrError::NoLanIpv4 => String::from_str("无法找到合适的局域网 IPv4"),
            LanQrError::PortAllocationFailed => String::from_str("端口分配失败"),
            LanQrError::ContextMenuInstallFailed(m) => join_text("右键菜单安装失败：", m.as_str()),
            LanQrError::ContextMenuUninstallFailed(m) => join_text("右键菜单卸载失败：", m.as_str()),
            LanQrError::ClipboardFailed(m) => join_text("复制链接失败：", m.as_str()),
            LanQrError::Message(m) => String::from_str(m.as_str()),
            LanQrError::Io(m) => String::from_str(m.as_str()),
        }
    }
}

} // verus!
