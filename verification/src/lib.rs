//! The core of certik, an HTTP(S) certificate manager.
//!
//! Certificates and keys are read once, by OpenSSL, into plain values (`crypto`). On these work the
//! reports (`report`, `inspect`), certificate sets (`certs`, `session`) and their verification
//! (`chain`), and the HTTPS API (`api`, `tls`). The rest is what the program shows and how it is
//! told what to do: windows (`windows`, `layout`, `panes`, `highlight`, `screen`), two games
//! (`snake`, `tetris`) and the command line (`cli`).
#![allow(unused_imports)]

pub mod api;
pub mod certs;
pub mod chain;
pub mod cli;
pub mod clock;
pub mod crypto;
pub mod geometry;
pub mod highlight;
pub mod inspect;
pub mod keys;
pub mod layout;
pub mod panes;
pub mod pem;
pub mod random;
pub mod report;
pub mod screen;
pub mod session;
pub mod snake;
pub mod tetris;
pub mod text;
pub mod tls;
pub mod windows;
