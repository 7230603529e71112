//! The window's texts in Chinese and English, and how the language is chosen:
//! a manual choice wins, otherwise the system's locale decides.
use vstd::prelude::*;

use crate::errors::LanQrError;
use crate::models::ShareStatus;
use crate::text::{ascii_lowercase, has_prefix, push_signed_decimal, signed_decimal};

verus! {

/// The language the user asked for.
#[derive(Debug, Clone, Copy, PartialEq, Eq, Structural)]
pub enum LanguagePreference {
    Auto,
    Chinese,
    English,
}

/// A language the window can be shown in.
#[derive(Debug, Clone, Copy, PartialEq, Eq, Structural)]
pub enum UiLanguage {
    Chinese,
    English,
}

/// The texts of the window, in the language chosen by a preference and the
/// language detected from the system.
#[derive(Debug, Clone, Copy)]
pub struct I18n {
    preference: LanguagePreference,
    detected: UiLanguage,
}

impl I18n {
    /// The preference this was made with.
    pub closed spec fn preference_of(self) -> LanguagePreference {
        self.preference
    }

    /// The language detected from the system.
    pub closed spec fn detected_of(self) -> UiLanguage {
        self.detected
    }

    /// The language in effect: the preference, or the detected language when
    /// the preference is `Auto`.
    pub open spec fn language(self) -> UiLanguage {
        match self.preference_of() {
            LanguagePreference::Auto => self.detected_of(),
            LanguagePreference::Chinese => UiLanguage::Chinese,
            LanguagePreference::English => UiLanguage::English,
        }
    }

    /// The Chinese or the English text, by the language in effect.
    pub open spec fn text(self, zh: Seq<char>, en: Seq<char>) -> Seq<char> {
        match self.language() {
            UiLanguage::Chinese => zh,
            UiLanguage::English => en,
        }
    }

    /// Texts for a preference and a detected language.
    pub fn new(preference: LanguagePreference, detected: UiLanguage) -> (res: Self)
        ensures
            res.preference_of() == preference,
            res.detected_of() == detected,
    {
        I18n { preference, detected }
    }

    /// The language in effect.
    pub fn lang(self) -> (res: UiLanguage)
        ensures
            res == self.language(),
    {
        match self.preference {
            LanguagePreference::Auto => self.detected,
            LanguagePreference::Chinese => UiLanguage::Chinese,
            LanguagePreference::English => UiLanguage::English,
        }
    }

    fn pick(self, zh: &'static str, en: &'static str) -> (res: &'static str)
        ensures
            res@ == self.text(zh@, en@),
    {
        match self.lang() {
            UiLanguage::Chinese => zh,
            UiLanguage::English => en,
        }
    }

    /// The application's name.
    pub fn app_title(self) -> (res: &'static str)
        ensures
            res@ == self.text("邻享码"@, "LanQR"@),
    {
        self.pick("邻享码", "LanQR")
    }

    /// Label of the shared object's name.
    pub fn object_label(self) -> (res: &'static str)
        ensures
            res@ == self.text("对象"@, "Target"@),
    {
        self.pick("对象", "Target")
    }

    /// Label of the shared object's path.
    pub fn path_label(self) -> (res: &'static str)
        ensures
            res@ == self.text("路径"@, "Path"@),
    {
        self.pick("路径", "Path")
    }

    /// Label of the shared object's kind.
    pub fn type_label(self) -> (res: &'static str)
        ensures
            res@ == self.text("类型"@, "Type"@),
    {
        self.pick("类型", "Type")
    }

    /// Shown when nothing is shared.
    pub fn no_target(self) -> (res: &'static str)
        ensures
            res@ == self.text("未选择分享对象"@, "No share target selected"@),
    {
        self.pick("未选择分享对象", "No share target selected")
    }

    /// How to choose something to share.
    pub fn no_target_help(self) -> (res: &'static str)
        ensures
            res@ == self.text("请从资源管理器右键文件或文件夹启动，或使用命令行传入路径。"@, "Launch from the Explorer context menu or pass a file/folder path on the command line."@),
    {
        self.pick("请从资源管理器右键文件或文件夹启动，或使用命令行传入路径。", "Launch from the Explorer context menu or pass a file/folder path on the command line.")
    }

    /// Label of the language selector.
    pub fn language_label(self) -> (res: &'static str)
        ensures
            res@ == self.text("语言"@, "Language"@),
    {
        self.pick("语言", "Language")
    }

    /// Label of the address selector.
    pub fn lan_ip_label(self) -> (res: &'static str)
        ensures
            res@ == self.text("本机局域网 IP"@, "LAN IP"@),
    {
        self.pick("本机局域网 IP", "LAN IP")
    }

    /// Shown when no address is selected.
    pub fn not_selected(self) -> (res: &'static str)
        ensures
            res@ == self.text("未选择"@, "Not selected"@),
    {
        self.pick("未选择", "Not selected")
    }

    /// Shown when no address can be offered.
    pub fn no_lan_ipv4(self) -> (res: &'static str)
        ensures
            res@ == self.text("未找到可用的局域网 IPv4"@, "No available LAN IPv4 address found"@),
    {
        self.pick("未找到可用的局域网 IPv4", "No available LAN IPv4 address found")
    }

    /// Stands where the QR code will be.
    pub fn qr_placeholder(self) -> (res: &'static str)
        ensures
            res@ == self.text("二维码会显示在这里"@, "The QR code will appear here"@),
    {
        self.pick("二维码会显示在这里", "The QR code will appear here")
    }

    /// Label of the share's address.
    pub fn url_label(self) -> (res: &'static str)
        ensures
            res@ == self.text("访问链接"@, "URL"@),
    {
        self.pick("访问链接", "URL")
    }

    /// Label of the share's port.
    pub fn port_label(self) -> (res: &'static str)
        ensures
            res@ == self.text("端口"@, "Port"@),
    {
        self.pick("端口", "Port")
    }

    /// Label of the share's route.
    pub fn route_label(self) -> (res: &'static str)
        ensures
            res@ == self.text("路径片段"@, "Route token"@),
    {
        self.pick("路径片段", "Route token")
    }

    /// Label of the address in use.
    pub fn current_ip_label(self) -> (res: &'static str)
        ensures
            res@ == self.text("当前 IP"@, "Active IP"@),
    {
        self.pick("当前 IP", "Active IP")
    }

    /// Button that copies the address.
    pub fn copy_link(self) -> (res: &'static str)
        ensures
            res@ == self.text("复制链接"@, "Copy Link"@),
    {
        self.pick("复制链接", "Copy Link")
    }

    /// Button that restarts the share.
    pub fn regenerate(self) -> (res: &'static str)
        ensures
            res@ == self.text("重新生成"@, "Regenerate"@),
    {
        self.pick("重新生成", "Regenerate")
    }

    /// Button that stops the share.
    pub fn stop_share(self) -> (res: &'static str)
        ensures
            res@ == self.text("关闭分享"@, "Stop Share"@),
    {
        self.pick("关闭分享", "Stop Share")
    }

    /// Button that installs the context menu.
    pub fn install_context_menu(self) -> (res: &'static str)
        ensures
            res@ == self.text("安装右键菜单"@, "Install Context Menu"@),
    {
        self.pick("安装右键菜单", "Install Context Menu")
    }

    /// Button that removes the context menu.
    pub fn uninstall_context_menu(self) -> (res: &'static str)
        ensures
            res@ == self.text("卸载右键菜单"@, "Uninstall Context Menu"@),
    {
        self.pick("卸载右键菜单", "Uninstall Context Menu")
    }

    /// Reported when a share starts.
    pub fn share_started(self) -> (res: &'static str)
        ensures
            res@ == self.text("共享已启动"@, "Share started"@),
    {
        self.pick("共享已启动", "Share started")
    }

    /// Reported when a share restarts.
    pub fn share_regenerated(self) -> (res: &'static str)
        ensures
            res@ == self.text("共享已重新生成"@, "Share regenerated"@),
    {
        self.pick("共享已重新生成", "Share regenerated")
    }

    /// Reported when a share stops.
    pub fn share_stopped(self) -> (res: &'static str)
        ensures
            res@ == self.text("共享已停止"@, "Share stopped"@),
    {
        self.pick("共享已停止", "Share stopped")
    }

    /// Reported when the address was copied.
    pub fn link_copied(self) -> (res: &'static str)
        ensures
            res@ == self.text("链接已复制到剪贴板"@, "Link copied to clipboard"@),
    {
        self.pick("链接已复制到剪贴板", "Link copied to clipboard")
    }

    /// Reported after installing the context menu.
    pub fn context_menu_installed(self) -> (res: &'static str)
        ensures
            res@ == self.text("右键菜单安装成功"@, "Context menu installed"@),
    {
        self.pick("右键菜单安装成功", "Context menu installed")
    }

    /// Reported after removing the context menu.
    pub fn context_menu_uninstalled(self) -> (res: &'static str)
        ensures
            res@ == self.text("右键菜单卸载成功"@, "Context menu uninstalled"@),
    {
        self.pick("右键菜单卸载成功", "Context menu uninstalled")
    }

    /// The context menu entry's text.
    pub fn menu_text(self) -> (res: &'static str)
        ensures
            res@ == self.text("生成局域网二维码"@, "Generate LAN QR"@),
    {
        self.pick("生成局域网二维码", "Generate LAN QR")
    }

    /// The window heading: the application's name, and the target's name
    /// after ` - ` when there is one.
    pub fn heading(self, target_name: Option<&str>) -> (res: String)
        ensures
            res@ == match target_name {
                Some(n) => self.text("邻享码"@, "LanQR"@) + " - "@ + n@,
                None => self.text("邻享码"@, "LanQR"@),
            },
    {
        match target_name {
            Some(name) => {
                let mut s = String::from_str(self.app_title());
                s.append(" - ");
                s.append(name);
                s
            },
            None => String::from_str(self.app_title()),
        }
    }

    /// The status line for `status`.
    pub fn status_text(self, status: &ShareStatus) -> (res: &'static str)
        ensures
            res@ == match *status {
                ShareStatus::Idle => self.text("当前状态：空闲"@, "Status: Idle"@),
                ShareStatus::Starting => self.text("当前状态：启动中"@, "Status: Starting"@),
                ShareStatus::Running => self.text("当前状态：运行中"@, "Status: Running"@),
                ShareStatus::Stopped => self.text("当前状态：已停止"@, "Status: Stopped"@),
                ShareStatus::Error => self.text("当前状态：出错"@, "Status: Error"@),
            },
    {
        match status {
            ShareStatus::Idle => self.pick("当前状态：空闲", "Status: Idle"),
            ShareStatus::Starting => self.pick("当前状态：启动中", "Status: Starting"),
            ShareStatus::Running => self.pick("当前状态：运行中", "Status: Running"),
            ShareStatus::Stopped => self.pick("当前状态：已停止", "Status: Stopped"),
            ShareStatus::Error => self.pick("当前状态：出错", "Status: Error"),
        }
    }

    /// The name of a target's kind.
    pub fn target_type(self, is_dir: bool) -> (res: &'static str)
        ensures
            res@ == if is_dir {
                self.text("文件夹"@, "Folder"@)
            } else {
                self.text("文件"@, "File"@)
            },
    {
        if is_dir {
            self.pick("文件夹", "Folder")
        } else {
            self.pick("文件", "File")
        }
    }

    /// The name of a language choice; the two languages are always named in
    /// their own language.
    pub fn language_choice(self, preference: LanguagePreference) -> (res: &'static str)
        ensures
            res@ == match preference {
                LanguagePreference::Auto => self.text("跟随系统"@, "Follow system"@),
                LanguagePreference::Chinese => "中文"@,
                LanguagePreference::English => "English"@,
            },
    {
        match preference {
            LanguagePreference::Auto => self.pick("跟随系统", "Follow system"),
            LanguagePreference::Chinese => "中文",
            LanguagePreference::English => "English",
        }
    }

    /// The message when the share service ended, with its exit code if known.
    pub fn service_exited(self, code: Option<i32>) -> (res: String)
        ensures
            res@ == match code {
                Some(c) => self.text("共享服务已退出，退出码："@, "Share service exited with code: "@)
                    + signed_decimal(c as int),
                None => self.text("共享已停止"@, "Share stopped"@),
            },
    {
        match code {
            Some(c) => {
                let mut s = String::from_str(
                    self.pick("共享服务已退出，退出码：", "Share service exited with code: "),
                );
                push_signed_decimal(&mut s, c as i64);
                s
            },
            None => String::from_str(self.share_stopped()),
        }
    }

    /// The message shown for an error.
    pub fn error(self, error: &LanQrError) -> (res: String)
        ensures
            res@ == self.error_message(*error),
    {
        match error {
            LanQrError::TargetNotFound(p) => self.with_detail(
                "目标路径不存在：",
                "Target path not found: ",
                p.as_str(),
            ),
            LanQrError::TargetAccessDenied(p) => self.with_detail(
                "无法访问目标路径：",
                "Cannot access target path: ",
                p.as_str(),
            ),
            LanQrError::ShareServiceStartFailed(m) => self.with_detail(
                "共享服务启动失败：",
                "Failed to start share service: ",
                m.as_str(),
            ),
            LanQrError::NoLanIpv4 => String::from_str(self.no_lan_ipv4()),
            LanQrError::PortAllocationFailed => String::from_str(
                self.pick("端口分配失败", "Failed to allocate port"),
            ),
            LanQrError::ContextMenuInstallFailed(m) => self.with_detail(
                "右键菜单安装失败：",
                "Failed to install context menu: ",
                m.as_str(),
            ),
            LanQrError::ContextMenuUninstallFailed(m) => self.with_detail(
                "右键菜单卸载失败：",
                "Failed to uninstall context menu: ",
                m.as_str(),
            ),
            LanQrError::ClipboardFailed(m) => self.with_detail(
                "复制链接失败：",
                "Failed to copy link: ",
                m.as_str(),
            ),
            LanQrError::Message(m) => String::from_str(m.as_str()),
            LanQrError::Io(m) => self.with_detail("I/O 错误：", "I/O error: ", m.as_str()),
        }
    }

    fn with_detail(self, zh: &'static str, en: &'static str, detail: &str) -> (res: String)
        ensures
            res@ == self.text(zh@, en@) + detail@,
    {
        let mut s = String::from_str(self.pick(zh, en));
        s.append(detail);
        s
    }

    /// The message for an error: a lead-in in the language in effect and the
    /// error's detail.
    pub open spec fn error_message(self, e: LanQrError) -> Seq<char> {
        match e {
            LanQrError::TargetNotFound(p) => self.text("目标路径不存在："@, "Target path not found: "@)
                + p@,
            LanQrError::TargetAccessDenied(p) => self.text(
                "无法访问目标路径："@,
                "Cannot access target path: "@,
            ) + p@,
            LanQrError::ShareServiceStartFailed(m) => self.text(
                "共享服务启动失败："@,
                "Failed to start share service: "@,
            ) + m@,
            LanQrError::NoLanIpv4 => self.text(
                "未找到可用的局域网 IPv4"@,
                "No available LAN IPv4 address found"@,
            ),
            LanQrError::PortAllocationFailed => self.text("端口分配失败"@, "Failed to allocate port"@),
            LanQrError::ContextMenuInstallFailed(m) => self.text(
                "右键菜单安装失败："@,
                "Failed to install context menu: "@,
            ) + m@,
            LanQrError::ContextMenuUninstallFailed(m) => self.text(
                "右键菜单卸载失败："@,
                "Failed to uninstall context menu: "@,
            ) + m@,
            LanQrError::ClipboardFailed(m) => self.text("复制链接失败："@, "Failed to copy link: "@)
                + m@,
            LanQrError::Message(m) => m@,
            LanQrError::Io(m) => self.text("I/O 错误："@, "I/O error: "@) + m@,
        }
    }
}

/// A manual language choice decides the language whatever was detected; with
/// `Auto` the detected language is used.
pub proof fn lemma_language_choice(a: I18n, b: I18n)
    ensures
        a.preference_of() == b.preference_of() && a.preference_of() != LanguagePreference::Auto
            ==> a.language() == b.language(),
        a.preference_of() == LanguagePreference::Auto ==> a.language() == a.detected_of(),
        a.preference_of() == LanguagePreference::Chinese ==> a.language() == UiLanguage::Chinese,
        a.preference_of() == LanguagePreference::English ==> a.language() == UiLanguage::English,
{
}

/// The language for a locale name: Chinese when it starts with `zh` (in any
/// case), English otherwise.
pub open spec fn locale_language(locale: Seq<char>) -> UiLanguage {
    if has_prefix(ascii_lowercase(locale), "zh"@) {
        UiLanguage::Chinese
    } else {
        UiLanguage::English
    }
}

/// A locale name gives Chinese exactly when it starts with `zh` in any ASCII
/// case (`zh`, `zh_CN.UTF-8`, `ZH-tw`), and English otherwise.
pub proof fn lemma_locale_rule(locale: Seq<char>)
    ensures
        locale_language(locale) == UiLanguage::Chinese <==> (locale.len() >= 2 && (locale[0] == 'z'
            || locale[0] == 'Z') && (locale[1] == 'h' || locale[1] == 'H')),
{
    reveal_strlit("zh");
    let l = ascii_lowercase(locale);
    if locale.len() >= 2 {
        assert(l[0] == crate::text::ascii_lower_char(locale[0]));
        assert(l[1] == crate::text::ascii_lower_char(locale[1]));
        lemma_lower_is(locale[0], 'z');
        lemma_lower_is(locale[1], 'h');
        if has_prefix(l, "zh"@) {
            assert(l.subrange(0, 2)[0] == l[0]);
            assert(l.subrange(0, 2)[1] == l[1]);
        }
        if (locale[0] == 'z' || locale[0] == 'Z') && (locale[1] == 'h' || locale[1] == 'H') {
            assert(l.subrange(0, 2) =~= "zh"@);
        }
    }
}

proof fn lemma_lower_is(c: char, t: char)
    requires
        t == 'z' || t == 'h',
    ensures
        crate::text::ascii_lower_char(c) == t <==> (c == t || c as u32 + 32 == t as u32),
{
    if 'A' <= c && c <= 'Z' {
        assert(((c as u32) + 32) as char as u32 == (c as u32) + 32);
    }
}

/// The language for a locale name.
pub fn language_for_locale(locale: &str) -> (res: UiLanguage)
    ensures
        res == locale_language(locale@),
{
    let lowered = crate::text::to_ascii_lowercase(locale);
    let l = crate::text::chars_of(lowered.as_str());
    let zh = crate::text::chars_of("zh");
    if crate::text::starts_with_chars(l.as_slice(), zh.as_slice()) {
        UiLanguage::Chinese
    } else {
        UiLanguage::English
    }
}

/// The locale that decides the language: the system's, else the one from the
/// environment, else none (the empty name).
pub open spec fn effective_locale(system: Option<Seq<char>>, environment: Option<Seq<char>>) -> Seq<char> {
    match system {
        Some(s) => s,
        None => match environment {
            Some(e) => e,
            None => Seq::empty(),
        },
    }
}

/// The language for the system's locale and the environment's locale.
pub fn language_for_locales(system: Option<&str>, environment: Option<&str>) -> (res: UiLanguage)
    ensures
        res == locale_language(effective_locale(crate::text::opt_text(system), crate::text::opt_text(environment))),
{
    match system {
        Some(s) => language_for_locale(s),
        None => match environment {
            Some(e) => language_for_locale(e),
            None => {
                proof {
                    reveal_strlit("");
                    assert(""@ =~= Seq::<char>::empty());
                }
                language_for_locale("")
            },
        },
    }
}

/// `sys_locale::get_locale`: the system's preferred locale, if it can be
/// read. What it returns depends on the machine and is left open.
#[verifier::external_body]
fn system_locale() -> (res: Option<String>) {
    sys_locale::get_locale()
}

/// The text of an optional owned string.
pub open spec fn opt_string(o: Option<String>) -> Option<Seq<char>> {
    match o {
        Some(s) => Some(s@),
        None => None,
    }
}

/// The language of the system, with the system locale it was read from
/// (`None` when the system gives none): that locale, else
/// `environment_locale` (the caller reads `LC_ALL`, then `LANG`), decides as
/// in [`language_for_locales`].
pub fn detect_system_language(environment_locale: Option<String>) -> (res: (UiLanguage, Option<String>))
    ensures
        res.0 == locale_language(effective_locale(opt_string(res.1), opt_string(environment_locale))),
{
    let system = system_locale();
    let sys_ref: Option<&str> = match &system {
        Some(s) => Some(s.as_str()),
        None => None,
    };
    let env_ref: Option<&str> = match &environment_locale {
        Some(e) => Some(e.as_str()),
        None => None,
    };
    let language = language_for_locales(sys_ref, env_ref);
    (language, system)
}

} // verus!
