use lanqr::errors::LanQrError;
use lanqr::i18n::{language_for_locale, language_for_locales, I18n, LanguagePreference, UiLanguage};
use lanqr::models::ShareStatus;

fn zh() -> I18n {
    I18n::new(LanguagePreference::Chinese, UiLanguage::English)
}

fn en() -> I18n {
    I18n::new(LanguagePreference::English, UiLanguage::Chinese)
}

#[test]
fn manual_choice_wins_over_detection() {
    assert_eq!(zh().lang(), UiLanguage::Chinese);
    assert_eq!(en().lang(), UiLanguage::English);
    assert_eq!(I18n::new(LanguagePreference::Auto, UiLanguage::Chinese).lang(), UiLanguage::Chinese);
    assert_eq!(I18n::new(LanguagePreference::Auto, UiLanguage::English).lang(), UiLanguage::English);
}

#[test]
fn simple_texts() {
    assert_eq!(zh().app_title(), "邻享码");
    assert_eq!(en().app_title(), "LanQR");
    assert_eq!(zh().menu_text(), "生成局域网二维码");
    assert_eq!(en().menu_text(), "Generate LAN QR");
    assert_eq!(en().copy_link(), "Copy Link");
    assert_eq!(zh().no_lan_ipv4(), "未找到可用的局域网 IPv4");
    assert_eq!(en().target_type(true), "Folder");
    assert_eq!(zh().target_type(false), "文件");
    assert_eq!(en().language_choice(LanguagePreference::Auto), "Follow system");
    assert_eq!(en().language_choice(LanguagePreference::Chinese), "中文");
    assert_eq!(zh().language_choice(LanguagePreference::English), "English");
}

#[test]
fn status_texts() {
    assert_eq!(zh().status_text(&ShareStatus::Running), "当前状态：运行中");
    assert_eq!(en().status_text(&ShareStatus::Error), "Status: Error");
}

#[test]
fn headings() {
    assert_eq!(en().heading(Some("photos")), "LanQR - photos");
    assert_eq!(zh().heading(None), "邻享码");
}

#[test]
fn service_exit_messages() {
    assert_eq!(en().service_exited(Some(-3)), "Share service exited with code: -3");
    assert_eq!(zh().service_exited(Some(2147483647)), "共享服务已退出，退出码：2147483647");
    assert_eq!(en().service_exited(None), "Share stopped");
}

#[test]
fn error_messages() {
    assert_eq!(zh().error(&LanQrError::TargetNotFound("C:\\a".to_string())), "目标路径不存在：C:\\a");
    assert_eq!(en().error(&LanQrError::PortAllocationFailed), "Failed to allocate port");
    assert_eq!(en().error(&LanQrError::NoLanIpv4), "No available LAN IPv4 address found");
    assert_eq!(en().error(&LanQrError::Io("disk full".to_string())), "I/O error: disk full");
    assert_eq!(zh().error(&LanQrError::Message("原样".to_string())), "原样");
}

#[test]
fn locales() {
    assert_eq!(language_for_locale("zh-CN"), UiLanguage::Chinese);
    assert_eq!(language_for_locale("ZH_tw.UTF-8"), UiLanguage::Chinese);
    assert_eq!(language_for_locale("en-US"), UiLanguage::English);
    assert_eq!(language_for_locale("z"), UiLanguage::English);
    assert_eq!(language_for_locales(None, Some("zh_CN.UTF-8")), UiLanguage::Chinese);
    assert_eq!(language_for_locales(Some("en-GB"), Some("zh")), UiLanguage::English);
    assert_eq!(language_for_locales(None, None), UiLanguage::English);
}
