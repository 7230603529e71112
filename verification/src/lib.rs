pub mod app_state;
pub mod context_menu;
pub mod errors;
pub mod http;
pub mod i18n;
pub mod launch;
pub mod listing;
pub mod logging;
pub mod models;
pub mod network;
pub mod paths;
pub mod qr;
pub mod range;
pub mod share_service;
pub mod sorting;
pub mod text;
