pub mod layout;
pub mod settings_panel;
