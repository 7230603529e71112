use lanqr::app_state::{status_text, AppState};
use lanqr::errors::LanQrError;
use lanqr::i18n::{I18n, LanguagePreference, UiLanguage};
use lanqr::launch::{parse_launch_mode, validate_target, ParsedLaunch, TargetProbe};
use lanqr::logging::log_file_name;
use lanqr::models::{Ipv4, LaunchMode, NetworkCandidate, ProcessState, ShareSession, ShareStatus};
use lanqr::qr::{build_qr_texture_input, luma_to_rgba, qr_size_supported};
use lanqr::text::decimal_string;

fn args(v: &[&str]) -> Vec<String> {
    v.iter().map(|s| s.to_string()).collect()
}

#[test]
fn launch_modes() {
    assert!(matches!(parse_launch_mode(&args(&[])), ParsedLaunch::Gui(LaunchMode::Idle)));
    assert!(matches!(parse_launch_mode(&args(&["--install-context-menu"])), ParsedLaunch::InstallContextMenu));
    assert!(matches!(parse_launch_mode(&args(&["--uninstall-context-menu"])), ParsedLaunch::UninstallContextMenu));
    match parse_launch_mode(&args(&["D:\\test\\file.zip", "extra"])) {
        ParsedLaunch::Target(p) => assert_eq!(p, "D:\\test\\file.zip"),
        _ => panic!("expected a target"),
    }
    match parse_launch_mode(&args(&["--install-context-menu", "x"])) {
        ParsedLaunch::Target(p) => assert_eq!(p, "--install-context-menu"),
        _ => panic!("expected a target"),
    }
}

#[test]
fn target_validation() {
    assert_eq!(
        validate_target("D:\\missing", TargetProbe::Missing).unwrap_err(),
        LanQrError::TargetNotFound("D:\\missing".to_string())
    );
    assert_eq!(
        validate_target("D:\\locked", TargetProbe::AccessDenied).unwrap_err(),
        LanQrError::TargetAccessDenied("D:\\locked".to_string())
    );
    assert_eq!(
        validate_target("D:\\x", TargetProbe::Unreadable("busy".to_string())).unwrap_err(),
        LanQrError::Message("读取目标路径失败：busy".to_string())
    );
    let t = validate_target("D:\\test\\folder", TargetProbe::Found { is_dir: true, file_name: Some("folder".to_string()) }).unwrap();
    assert_eq!(t.display_name, "folder");
    assert!(t.is_dir);
    assert_eq!(t.original_path, "D:\\test\\folder");
    let t = validate_target("D:\\", TargetProbe::Found { is_dir: true, file_name: None }).unwrap();
    assert_eq!(t.display_name, "D:\\");
}

#[test]
fn log_names() {
    assert_eq!(log_file_name(1700000000), "lanqr-1700000000.log");
    assert_eq!(log_file_name(0), "lanqr-0.log");
}

#[test]
fn decimals() {
    assert_eq!(decimal_string(0), "0");
    assert_eq!(decimal_string(18446744073709551615), "18446744073709551615");
}

#[test]
fn error_texts() {
    assert_eq!(LanQrError::TargetNotFound("C:\\x".to_string()).display_text(), "目标路径不存在：C:\\x");
    assert_eq!(LanQrError::NoLanIpv4.display_text(), "无法找到合适的局域网 IPv4");
    assert_eq!(LanQrError::PortAllocationFailed.display_text(), "端口分配失败");
    assert_eq!(LanQrError::ClipboardFailed("busy".to_string()).display_text(), "复制链接失败：busy");
    assert_eq!(LanQrError::Io("eof".to_string()).display_text(), "eof");
    let e = LanQrError::ContextMenuUninstallFailed("x".to_string());
    assert_eq!(e.duplicate(), e);
}

#[test]
fn qr_codes() {
    let img = build_qr_texture_input("http://192.168.1.5:20000/send/AbCdEf1234", 320).unwrap();
    assert!(img.width >= 320);
    assert_eq!(img.width, img.height);
    assert_eq!(img.rgba.len(), img.width * img.height * 4);
    assert!(img.rgba.chunks(4).all(|p| p[3] == 255 && p[0] == p[1] && p[1] == p[2] && (p[0] == 0 || p[0] == 255)));
    assert!(img.rgba.chunks(4).any(|p| p[0] == 0));
    assert_eq!(&img.rgba[0..4], &[255, 255, 255, 255]);
}

#[test]
fn qr_too_long_is_an_error() {
    let url = "x".repeat(8000);
    match build_qr_texture_input(&url, 100) {
        Err(LanQrError::Message(m)) => assert_eq!(m, "生成二维码失败：data too long"),
        _ => panic!("expected an error"),
    }
}

#[test]
fn grey_to_rgba() {
    assert_eq!(luma_to_rgba(&[0, 200]), vec![0, 0, 0, 255, 200, 200, 200, 255]);
    assert!(luma_to_rgba(&[]).is_empty());
}

#[test]
fn app_status_texts() {
    assert_eq!(status_text(&ShareStatus::Idle), "当前状态：空闲");
    assert_eq!(status_text(&ShareStatus::Stopped), "当前状态：已停止");
}

fn candidates() -> Vec<NetworkCandidate> {
    vec![NetworkCandidate { ip: Ipv4(192, 168, 1, 2), label: "Wi-Fi (192.168.1.2)".to_string() }]
}

#[test]
fn app_share_flow() {
    let i18n = I18n::new(LanguagePreference::English, UiLanguage::Chinese);
    let mut app = AppState::new();
    assert_eq!(app.status(), ShareStatus::Idle);
    assert_eq!(app.prepare_share(false, &candidates(), false, i18n), None);
    assert_eq!(app.status(), ShareStatus::Idle);

    assert_eq!(app.prepare_share(true, &candidates(), false, i18n), Some(Ipv4(192, 168, 1, 2)));
    assert_eq!(app.status(), ShareStatus::Starting);
    let session = ShareSession { ip: Ipv4(192, 168, 1, 2), port: 20001, route: "r".to_string(), url: "u".to_string() };
    app.share_started(session, false, i18n);
    assert_eq!(app.status(), ShareStatus::Running);
    assert_eq!(app.info_message(), Some("Share started"));
    assert_eq!(app.session().unwrap().port, 20001);

    app.poll_process(ProcessState::Exited(Some(1)), i18n);
    assert_eq!(app.status(), ShareStatus::Stopped);
    assert!(app.session().is_none());
    assert_eq!(app.info_message(), Some("Share service exited with code: 1"));
}

#[test]
fn app_errors_and_notices() {
    let i18n = I18n::new(LanguagePreference::Chinese, UiLanguage::English);
    let mut app = AppState::new();
    app.select_ip(3);
    assert_eq!(app.prepare_share(true, &candidates(), true, i18n), None);
    assert_eq!(app.status(), ShareStatus::Error);
    assert_eq!(app.error_message(), Some("未找到可用的局域网 IPv4"));
    app.notify(i18n.link_copied());
    assert_eq!(app.error_message(), None);
    assert_eq!(app.info_message(), Some("链接已复制到剪贴板"));
    app.share_stopped(i18n);
    assert_eq!(app.status(), ShareStatus::Stopped);
    assert_eq!(app.info_message(), Some("共享已停止"));
    app.poll_process(ProcessState::Running, i18n);
    assert_eq!(app.status(), ShareStatus::Stopped);
}

#[test]
fn qr_sizes_that_fit() {
    assert!(qr_size_supported(0));
    assert!(qr_size_supported(320));
    assert!(qr_size_supported(10_000));
    assert!(!qr_size_supported(u32::MAX));
}

#[test]
fn system_language_follows_the_locale_read() {
    for env in [Some("zh_CN.UTF-8".to_string()), Some("en_US.UTF-8".to_string()), None] {
        let (language, system) = lanqr::i18n::detect_system_language(env.clone());
        assert_eq!(language, lanqr::i18n::language_for_locales(system.as_deref(), env.as_deref()));
    }
}
