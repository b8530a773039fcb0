//! The rules of a proxy that runs on the machine it serves.
//!
//! The proxy takes over the hosts that its rules give an address. It makes their names lead to
//! this machine, in the hosts file of the system ([`hosts`]) and as a DNS server over HTTPS
//! ([`doh`]), shows clients a certificate of its own for each of them ([`cert`]), and connects
//! to the real servers by address ([`proxy`]).
//!
//! - [`text`] and [`table`]: lines, words and bytes; a table from text to text.
//! - [`config`]: the settings.
//! - [`hosts`]: the marked block in the hosts file.
//! - [`dns`]: the rules, and DNS queries and replies.
//! - [`http`]: heads, bodies and replies.
//! - [`doh`]: which query is answered here and which upstream.
//! - [`cert`] and [`x509`]: which certificate a host gets; what in that of an authority cannot be
//!   written again.
//! - [`proxy`]: which host is proxied, and how a connection to it is tried.
//! - [`conn`]: what becomes of a connection.
//! - [`flow`] and [`shell`]: the doings of the program around the proxy, step by step.
//!
//! Nothing here reads a file or opens a connection: what comes from outside is handed in as plain
//! values, and what is to be done is handed out the same way. Only [`cert`] asks the system
//! itself, for the time and for random bytes, where it makes keys and certificates.
pub mod cert;
pub mod config;
pub mod conn;
pub mod dns;
pub mod doh;
pub mod flow;
pub mod hosts;
pub mod http;
pub mod proxy;
pub mod shell;
pub mod table;
pub mod text;
pub mod x509;
