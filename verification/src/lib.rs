//! Browser Switcher: finding the installed web browsers in Windows' registration data,
//! merging their duplicate registrations, and building the tray menu and the Windows
//! Settings links that let the user make one of them the default browser.
pub mod text;
pub mod browser;
pub mod registry;
pub mod settings;
pub mod icons;
pub mod tray;
