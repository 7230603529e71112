//! What the window shows and how it changes: the share's status, the running
//! session, the last error and the last notice, and the chosen address.
use vstd::prelude::*;

use crate::errors::LanQrError;
use crate::i18n::I18n;
use crate::models::{Ipv4, NetworkCandidate, ProcessState, ShareSession, ShareStatus};

verus! {

/// The status line of the window without a language choice (Chinese).
pub fn status_text(status: &ShareStatus) -> (res: &'static str)
    ensures
        res@ == match *status {
            ShareStatus::Idle => "当前状态：空闲"@,
            ShareStatus::Starting => "当前状态：启动中"@,
            ShareStatus::Running => "当前状态：运行中"@,
            ShareStatus::Stopped => "当前状态：已停止"@,
            ShareStatus::Error => "当前状态：出错"@,
        },
{
    match status {
        ShareStatus::Idle => "当前状态：空闲",
        ShareStatus::Starting => "当前状态：启动中",
        ShareStatus::Running => "当前状态：运行中",
        ShareStatus::Stopped => "当前状态：已停止",
        ShareStatus::Error => "当前状态：出错",
    }
}

/// The window's state.
pub struct AppState {
    share_status: ShareStatus,
    session: Option<ShareSession>,
    error_message: Option<String>,
    info_message: Option<String>,
    selected_ip_index: usize,
}

impl AppState {
    /// The share's status.
    pub closed spec fn status_of(&self) -> ShareStatus {
        self.share_status
    }

    /// The running session.
    pub closed spec fn session_of(&self) -> Option<ShareSession> {
        self.session
    }

    /// The error shown, by text.
    pub closed spec fn error_of(&self) -> Option<Seq<char>> {
        match self.error_message {
            Some(m) => Some(m@),
            None => None,
        }
    }

    /// The notice shown, by text.
    pub closed spec fn info_of(&self) -> Option<Seq<char>> {
        match self.info_message {
            Some(m) => Some(m@),
            None => None,
        }
    }

    /// The position of the chosen address in the address list.
    pub closed spec fn selected_of(&self) -> nat {
        self.selected_ip_index as nat
    }

    /// A window with nothing running, no messages, the first address chosen.
    pub fn new() -> (res: Self)
        ensures
            res.status_of() == ShareStatus::Idle,
            res.session_of() is None,
            res.error_of() is None,
            res.info_of() is None,
            res.selected_of() == 0,
    {
        AppState {
            share_status: ShareStatus::Idle,
            session: None,
            error_message: None,
            info_message: None,
            selected_ip_index: 0,
        }
    }

    /// The share's status.
    pub fn status(&self) -> (res: ShareStatus)
        ensures
            res == self.status_of(),
    {
        self.share_status
    }

    /// The running session.
    pub fn session(&self) -> (res: Option<&ShareSession>)
        ensures
            res == match self.session_of() {
                Some(s) => Some(&s),
                None => None,
            },
    {
        match &self.session {
            Some(s) => Some(s),
            None => None,
        }
    }

    /// The error shown.
    pub fn error_message(&self) -> (res: Option<&str>)
        ensures
            match res {
                Some(m) => self.error_of() == Some(m@),
                None => self.error_of() is None,
            },
    {
        match &self.error_message {
            Some(m) => Some(m.as_str()),
            None => None,
        }
    }

    /// The notice shown.
    pub fn info_message(&self) -> (res: Option<&str>)
        ensures
            match res {
                Some(m) => self.info_of() == Some(m@),
                None => self.info_of() is None,
            },
    {
        match &self.info_message {
            Some(m) => Some(m.as_str()),
            None => None,
        }
    }

    /// The position of the chosen address.
    pub fn selected_ip_index(&self) -> (res: usize)
        ensures
            res == self.selected_of(),
    {
        self.selected_ip_index
    }

    /// Chooses the address at `index` of the list.
    pub fn select_ip(&mut self, index: usize)
        ensures
            final(self).selected_of() == index,
            final(self).status_of() == old(self).status_of(),
            final(self).session_of() == old(self).session_of(),
            final(self).error_of() == old(self).error_of(),
            final(self).info_of() == old(self).info_of(),
    {
        self.selected_ip_index = index;
    }

    /// The chosen address, if the list has one at the chosen position.
    pub fn selected_ip(&self, candidates: &Vec<NetworkCandidate>) -> (res: Option<Ipv4>)
        ensures
            self.selected_of() < candidates@.len() ==> res == Some(
                candidates@[self.selected_of() as int].ip,
            ),
            self.selected_of() >= candidates@.len() ==> res is None,
    {
        if self.selected_ip_index < candidates.len() {
            Some(candidates[self.selected_ip_index].ip)
        } else {
            None
        }
    }

    /// Shows `error`: the status becomes `Error` and the error's message (in
    /// the language in effect) is shown.
    pub fn set_error(&mut self, error: &LanQrError, i18n: I18n)
        ensures
            final(self).status_of() == ShareStatus::Error,
            final(self).error_of() == Some(i18n.error_message(*error)),
            final(self).info_of() == old(self).info_of(),
            final(self).session_of() == old(self).session_of(),
            final(self).selected_of() == old(self).selected_of(),
    {
        self.share_status = ShareStatus::Error;
        self.error_message = Some(i18n.error(error));
    }

    /// Prepares to start (or, with `restart`, regenerate) the share: nothing
    /// happens without a target; without an address the error `NoLanIpv4` is
    /// shown; otherwise the status becomes `Starting`, the error (and, for a
    /// first start, the notice) is cleared, and the address to use is returned.
    pub fn prepare_share(
        &mut self,
        has_target: bool,
        candidates: &Vec<NetworkCandidate>,
        restart: bool,
        i18n: I18n,
    ) -> (res: Option<Ipv4>)
        ensures
            !has_target ==> res is None && final(self).status_of() == old(self).status_of()
                && final(self).error_of() == old(self).error_of() && final(self).info_of() == old(
                self,
            ).info_of(),
            has_target && old(self).selected_of() >= candidates@.len() ==> res is None
                && final(self).status_of() == ShareStatus::Error && final(self).error_of() == Some(
                i18n.error_message(LanQrError::NoLanIpv4),
            ),
            has_target && old(self).selected_of() < candidates@.len() ==> res == Some(
                candidates@[old(self).selected_of() as int].ip,
            ) && final(self).status_of() == ShareStatus::Starting && final(self).error_of() is None
                && (if restart {
                final(self).info_of() == old(self).info_of()
            } else {
                final(self).info_of() is None
            }),
            final(self).session_of() == old(self).session_of(),
            final(self).selected_of() == old(self).selected_of(),
    {
        if !has_target {
            return None;
        }
        let ip = match self.selected_ip(candidates) {
            Some(ip) => ip,
            None => {
                self.set_error(&LanQrError::NoLanIpv4, i18n);
                return None;
            },
        };
        self.share_status = ShareStatus::Starting;
        self.error_message = None;
        if !restart {
            self.info_message = None;
        }
        Some(ip)
    }

    /// The share (re)started with `session`: the status becomes `Running`,
    /// the session is kept and the matching notice shown.
    pub fn share_started(&mut self, session: ShareSession, restart: bool, i18n: I18n)
        ensures
            final(self).status_of() == ShareStatus::Running,
            final(self).session_of() == Some(session),
            final(self).info_of() == Some(
                if restart {
                    i18n.text("共享已重新生成"@, "Share regenerated"@)
                } else {
                    i18n.text("共享已启动"@, "Share started"@)
                },
            ),
            final(self).error_of() == old(self).error_of(),
            final(self).selected_of() == old(self).selected_of(),
    {
        self.share_status = ShareStatus::Running;
        let notice = if restart {
            i18n.share_regenerated()
        } else {
            i18n.share_started()
        };
        self.info_message = Some(String::from_str(notice));
        self.session = Some(session);
    }

    /// The share was stopped: the status becomes `Stopped`, the session is
    /// dropped and the notice says so.
    pub fn share_stopped(&mut self, i18n: I18n)
        ensures
            final(self).status_of() == ShareStatus::Stopped,
            final(self).session_of() is None,
            final(self).info_of() == Some(i18n.text("共享已停止"@, "Share stopped"@)),
            final(self).error_of() == old(self).error_of(),
            final(self).selected_of() == old(self).selected_of(),
    {
        self.share_status = ShareStatus::Stopped;
        self.session = None;
        self.info_message = Some(String::from_str(i18n.share_stopped()));
    }

    /// Follows the service's state: a server that runs confirms a `Starting`
    /// share; a server that exited stops the share and says so.
    pub fn poll_process(&mut self, state: ProcessState, i18n: I18n)
        ensures
            state == ProcessState::NotStarted ==> final(self).status_of() == old(self).status_of()
                && final(self).session_of() == old(self).session_of() && final(self).info_of() == old(
                self,
            ).info_of(),
            state == ProcessState::Running ==> final(self).status_of() == (if old(self).status_of()
                == ShareStatus::Starting {
                ShareStatus::Running
            } else {
                old(self).status_of()
            }) && final(self).session_of() == old(self).session_of() && final(self).info_of()
                == old(self).info_of(),
            state matches ProcessState::Exited(code) ==> final(self).status_of()
                == ShareStatus::Stopped && final(self).session_of() is None && final(self).info_of()
                == Some(
                match code {
                    Some(c) => i18n.text(
                        "共享服务已退出，退出码："@,
                        "Share service exited with code: "@,
                    ) + crate::text::signed_decimal(c as int),
                    None => i18n.text("共享已停止"@, "Share stopped"@),
                },
            ),
            final(self).error_of() == old(self).error_of(),
            final(self).selected_of() == old(self).selected_of(),
    {
        match state {
            ProcessState::NotStarted => {},
            ProcessState::Running => {
                if self.share_status == ShareStatus::Starting {
                    self.share_status = ShareStatus::Running;
                }
            },
            ProcessState::Exited(code) => {
                self.share_status = ShareStatus::Stopped;
                self.session = None;
                self.info_message = Some(i18n.service_exited(code));
            },
        }
    }

    /// Shows a notice and clears the error (after copying the link or
    /// changing the context menu).
    pub fn notify(&mut self, notice: &str)
        ensures
            final(self).info_of() == Some(notice@),
            final(self).error_of() is None,
            final(self).status_of() == old(self).status_of(),
            final(self).session_of() == old(self).session_of(),
            final(self).selected_of() == old(self).selected_of(),
    {
        self.info_message = Some(String::from_str(notice));
        self.error_message = None;
    }
}

} // verus!
