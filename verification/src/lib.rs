//! The logic of a forwarding proxy with a desktop front end: which rule a
//! request is forwarded by (`route`), the editable rule table (`model`), the
//! decisions behind the window's buttons (`controller`), and the commands and
//! backup formats that point the system proxy at the daemon and back
//! (`sysproxy`). `text` holds the character-level primitives they share.
pub mod text;
pub mod route;
pub mod model;
pub mod controller;
pub mod sysproxy;
