pub mod text;
pub mod paths;
pub mod editor;
pub mod sorted;
pub mod watch;
pub mod command;
pub mod host;
pub mod plugin;
pub mod plugin_protocol;
pub mod plugin_transport;
pub mod plugin_session;
pub mod plugin_worker;
pub mod keybind;
pub mod settings;
pub mod markdown;
pub mod note_meta;
pub mod vault;
pub mod i18n;
pub mod knowledge;
pub mod ai;
pub mod ai_vcp;
pub mod vcp;
pub mod vcp_admin;
pub mod watch_apply;
pub mod perf;
pub mod cli;
pub mod gen_vault;
