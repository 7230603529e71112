use lanqr::context_menu::{
    icon_value_for_exe, install, reg_failure_message, uninstall, RegAction, RegOutcome,
    DIRECTORY_KEY, FILE_KEY,
};
use lanqr::errors::LanQrError;
use lanqr::i18n::{I18n, LanguagePreference, UiLanguage};

fn run(action: RegAction) -> Vec<String> {
    match action {
        RegAction::Run(args) => args,
        RegAction::Finish(_) => panic!("expected a command"),
    }
}

fn finish(action: RegAction) -> Result<(), LanQrError> {
    match action {
        RegAction::Finish(r) => r,
        RegAction::Run(args) => panic!("unexpected command {args:?}"),
    }
}

#[test]
fn icon_paths() {
    assert_eq!(icon_value_for_exe("C:\\Apps\\LanQR.exe"), "\"C:\\Apps\\LanQR.ico\"");
    assert_eq!(icon_value_for_exe("C:\\Apps\\lanqr"), "\"C:\\Apps\\lanqr.ico\"");
    assert_eq!(icon_value_for_exe("C:\\x\\a.b.exe"), "\"C:\\x\\a.b.ico\"");
    assert_eq!(icon_value_for_exe("C:\\x\\.profile"), "\"C:\\x\\.profile.ico\"");
}

#[test]
fn icon_paths_without_a_file_name_are_kept() {
    assert_eq!(icon_value_for_exe("\\\\server\\share"), "\"\\\\server\\share\"");
    assert_eq!(icon_value_for_exe("\\\\server\\share\\"), "\"\\\\server\\share\\\"");
    assert_eq!(icon_value_for_exe("\\\\server\\share\\LanQR.exe"), "\"\\\\server\\share\\LanQR.ico\"");
    assert_eq!(icon_value_for_exe("C:"), "\"C:\"");
    assert_eq!(icon_value_for_exe("C:\\"), "\"C:\\\"");
    assert_eq!(icon_value_for_exe("C:LanQR.exe"), "\"C:LanQR.ico\"");
    assert_eq!(icon_value_for_exe("\\\\?\\C:"), "\"\\\\?\\C:\"");
    assert_eq!(icon_value_for_exe("\\\\?\\C:\\a\\LanQR.exe"), "\"\\\\?\\C:\\a\\LanQR.ico\"");
    assert_eq!(icon_value_for_exe("\\\\?\\UNC\\server\\share"), "\"\\\\?\\UNC\\server\\share\"");
    assert_eq!(icon_value_for_exe("\\\\.\\COM1"), "\"\\\\.\\COM1\"");
    assert_eq!(icon_value_for_exe("C:\\x\\.."), "\"C:\\x\\..\"");
}

#[test]
fn install_runs_six_commands() {
    let i18n = I18n::new(LanguagePreference::English, UiLanguage::Chinese);
    let mut job = install("C:\\Apps\\LanQR.exe", i18n);
    let mut seen = Vec::new();
    for _ in 0..6 {
        seen.push(run(job.next_action()));
        job.record(RegOutcome::Succeeded);
    }
    assert!(finish(job.next_action()).is_ok());
    let s = |v: &[&str]| v.iter().map(|x| x.to_string()).collect::<Vec<_>>();
    assert_eq!(seen[0], s(&["add", FILE_KEY, "/ve", "/t", "REG_SZ", "/d", "Generate LAN QR", "/f"]));
    assert_eq!(seen[1], s(&["add", FILE_KEY, "/v", "Icon", "/t", "REG_SZ", "/d", "\"C:\\Apps\\LanQR.ico\"", "/f"]));
    let command_key = format!("{FILE_KEY}\\command");
    assert_eq!(
        seen[2],
        s(&["add", command_key.as_str(), "/ve", "/t", "REG_SZ", "/d", "\"C:\\Apps\\LanQR.exe\" \"%1\"", "/f"])
    );
    assert_eq!(seen[3][1], DIRECTORY_KEY);
    assert_eq!(seen[5][1], format!("{DIRECTORY_KEY}\\command"));
    assert_eq!(FILE_KEY, "HKCU\\Software\\Classes\\*\\shell\\LanQR");
    assert_eq!(DIRECTORY_KEY, "HKCU\\Software\\Classes\\Directory\\shell\\LanQR");
}

#[test]
fn install_menu_text_follows_language() {
    let i18n = I18n::new(LanguagePreference::Chinese, UiLanguage::English);
    let job = install("C:\\LanQR.exe", i18n);
    assert_eq!(run(job.next_action())[6], "生成局域网二维码");
}

#[test]
fn install_stops_at_first_failure() {
    let i18n = I18n::new(LanguagePreference::Auto, UiLanguage::English);
    let mut job = install("C:\\LanQR.exe", i18n);
    job.record(RegOutcome::Succeeded);
    job.record(RegOutcome::Failed { stderr: "  ERROR: Access is denied.\r\n".to_string(), stdout: String::new() });
    assert_eq!(
        finish(job.next_action()),
        Err(LanQrError::ContextMenuInstallFailed("ERROR: Access is denied.".to_string()))
    );
    let mut job = install("C:\\LanQR.exe", i18n);
    job.record(RegOutcome::Unavailable("program not found".to_string()));
    assert_eq!(
        finish(job.next_action()),
        Err(LanQrError::ContextMenuInstallFailed("program not found".to_string()))
    );
}

#[test]
fn uninstall_skips_missing_keys() {
    let mut job = uninstall();
    assert_eq!(run(job.next_action()), vec!["query".to_string(), FILE_KEY.to_string()]);
    job.record(RegOutcome::Failed { stderr: "not found".to_string(), stdout: String::new() });
    assert_eq!(run(job.next_action()), vec!["query".to_string(), DIRECTORY_KEY.to_string()]);
    job.record(RegOutcome::Succeeded);
    assert_eq!(run(job.next_action()), vec!["delete".to_string(), DIRECTORY_KEY.to_string(), "/f".to_string()]);
    job.record(RegOutcome::Succeeded);
    assert_eq!(finish(job.next_action()), Ok(()));
}

#[test]
fn uninstall_errors() {
    let mut job = uninstall();
    job.record(RegOutcome::Unavailable("no reg".to_string()));
    assert_eq!(finish(job.next_action()), Err(LanQrError::Io("no reg".to_string())));

    let mut job = uninstall();
    job.record(RegOutcome::Succeeded);
    job.record(RegOutcome::Failed { stderr: " ".to_string(), stdout: " denied \n".to_string() });
    assert_eq!(finish(job.next_action()), Err(LanQrError::ContextMenuUninstallFailed("denied".to_string())));
}

#[test]
fn failure_messages() {
    assert_eq!(reg_failure_message("\u{3000}错误\t", "ignored"), "错误");
    assert_eq!(reg_failure_message("", "  out  "), "out");
    assert_eq!(reg_failure_message("", ""), "");
}
