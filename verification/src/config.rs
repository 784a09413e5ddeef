//! The server settings record: resource limits, endpoints and content root.
//! It is built once at startup — from defaults, amended line by line from a
//! configuration file — and read-only thereafter.

use vstd::prelude::*;

use crate::chars::{find_char, spec_parse_usize, str_find_char, parse_usize, str_eq};
use crate::http::spec_parse_u16;

verus! {

/// The configuration values the engine reads: the admission budget, the
/// header and body size caps, the per-read timeout, the bind endpoints and
/// the content root.
#[derive(Debug)]
pub struct Config {
    pub max_connections: usize,
    pub max_header_len: usize,
    pub max_body_len: usize,
    pub max_timeout: usize,
    pub ip: String,
    pub port_http: u16,
    pub port_https: u16,
    pub https_enabled: bool,
    pub server_root: String,
}

/// Mathematical model of a configuration.
#[verifier::ext_equal]
pub struct ConfigModel {
    pub max_connections: usize,
    pub max_header_len: usize,
    pub max_body_len: usize,
    pub max_timeout: usize,
    pub ip: Seq<char>,
    pub port_http: u16,
    pub port_https: u16,
    pub https_enabled: bool,
    pub server_root: Seq<char>,
}

impl View for Config {
    type V = ConfigModel;

    open spec fn view(&self) -> ConfigModel {
        ConfigModel {
            max_connections: self.max_connections,
            max_header_len: self.max_header_len,
            max_body_len: self.max_body_len,
            max_timeout: self.max_timeout,
            ip: self.ip@,
            port_http: self.port_http,
            port_https: self.port_https,
            https_enabled: self.https_enabled,
            server_root: self.server_root@,
        }
    }
}

/// Boolean settings accept exactly the two tokens `true` and `false`.
pub open spec fn spec_parse_bool(t: Seq<char>) -> Option<bool> {
    if t == "true"@ {
        Some(true)
    } else if t == "false"@ {
        Some(false)
    } else {
        None
    }
}

/// Parses a boolean setting.
pub fn parse_bool(s: &str) -> (r: Option<bool>)
    ensures
        r == spec_parse_bool(s@),
{
    if str_eq(s, "true") {
        Some(true)
    } else if str_eq(s, "false") {
        Some(false)
    } else {
        None
    }
}

/// What one configuration line does to the settings: a `name=value` line
/// replaces the named setting (a bad value is an error), any other line —
/// no `=`, or an unknown name — changes nothing.
pub open spec fn spec_apply_line(c: ConfigModel, line: Seq<char>) -> Result<ConfigModel, ()> {
    match find_char(line, '=') {
        None => Ok(c),
        Some(i) => {
            let name = line.subrange(0, i);
            let value = line.subrange(i + 1, line.len() as int);
            if name == "max_connections"@ {
                match spec_parse_usize(value) {
                    Some(v) => Ok(ConfigModel { max_connections: v, ..c }),
                    None => Err(()),
                }
            } else if name == "max_header_len"@ {
                match spec_parse_usize(value) {
                    Some(v) => Ok(ConfigModel { max_header_len: v, ..c }),
                    None => Err(()),
                }
            } else if name == "max_body_len"@ {
                match spec_parse_usize(value) {
                    Some(v) => Ok(ConfigModel { max_body_len: v, ..c }),
                    None => Err(()),
                }
            } else if name == "max_timeout"@ {
                match spec_parse_usize(value) {
                    Some(v) => Ok(ConfigModel { max_timeout: v, ..c }),
                    None => Err(()),
                }
            } else if name == "ip"@ {
                Ok(ConfigModel { ip: value, ..c })
            } else if name == "port_http"@ {
                match spec_parse_u16(value) {
                    Some(v) => Ok(ConfigModel { port_http: v, ..c }),
                    None => Err(()),
                }
            } else if name == "port_https"@ {
                match spec_parse_u16(value) {
                    Some(v) => Ok(ConfigModel { port_https: v, ..c }),
                    None => Err(()),
                }
            } else if name == "https_enabled"@ {
                match spec_parse_bool(value) {
                    Some(v) => Ok(ConfigModel { https_enabled: v, ..c }),
                    None => Err(()),
                }
            } else if name == "server_root"@ {
                Ok(ConfigModel { server_root: value, ..c })
            } else {
                Ok(c)
            }
        },
    }
}

impl Default for Config {
    /// The built-in settings used when no configuration file names others.
    fn default() -> (r: Config)
        ensures
            r@.max_connections == 10,
            r@.max_header_len == 8192,
            r@.max_body_len == 1048576,
            r@.max_timeout == 5,
            r@.ip == "127.0.0.1"@,
            r@.port_http == 1337,
            r@.port_https == 31337,
            r@.https_enabled == true,
            r@.server_root == "/var/www"@,
    {
        Config {
            max_connections: 10,
            max_header_len: 8192,
            max_body_len: 1048576,
            max_timeout: 5,
            ip: String::from_str("127.0.0.1"),
            port_http: 1337,
            port_https: 31337,
            https_enabled: true,
            server_root: String::from_str("/var/www"),
        }
    }
}

impl Config {
    /// Applies one configuration-file line to the settings, exactly as
    /// [`spec_apply_line`] describes.
    pub fn apply_line(&mut self, line: &str) -> (r: Result<(), ()>)
        ensures
            match r {
                Ok(_) => spec_apply_line(old(self)@, line@) == Ok::<ConfigModel, ()>(final(self)@),
                Err(_) => spec_apply_line(old(self)@, line@) == Err::<ConfigModel, ()>(())
                    && final(self)@ == old(self)@,
            },
    {
        let n = line.unicode_len();
        proof {
            crate::chars::lemma_find_char(line@, '=');
        }
        let i = match str_find_char(line, '=') {
            Some(i) => i,
            None => {
                return Ok(());
            },
        };
        let name = line.substring_char(0, i);
        let value = line.substring_char(i + 1, n);
        proof {
            assert(name@ =~= line@.subrange(0, i as int));
            assert(value@ =~= line@.subrange(i + 1, line@.len() as int));
        }
        if str_eq(name, "max_connections") {
            match parse_usize(value) {
                Some(v) => self.max_connections = v,
                None => {
                    return Err(());
                },
            }
        } else if str_eq(name, "max_header_len") {
            match parse_usize(value) {
                Some(v) => self.max_header_len = v,
                None => {
                    return Err(());
                },
            }
        } else if str_eq(name, "max_body_len") {
            match parse_usize(value) {
                Some(v) => self.max_body_len = v,
                None => {
                    return Err(());
                },
            }
        } else if str_eq(name, "max_timeout") {
            match parse_usize(value) {
                Some(v) => self.max_timeout = v,
                None => {
                    return Err(());
                },
            }
        } else if str_eq(name, "ip") {
            self.ip = value.to_owned();
        } else if str_eq(name, "port_http") {
            match crate::http::parse_u16(value) {
                Some(v) => self.port_http = v,
                None => {
                    return Err(());
                },
            }
        } else if str_eq(name, "port_https") {
            match crate::http::parse_u16(value) {
                Some(v) => self.port_https = v,
                None => {
                    return Err(());
                },
            }
        } else if str_eq(name, "https_enabled") {
            match parse_bool(value) {
                Some(v) => self.https_enabled = v,
                None => {
                    return Err(());
                },
            }
        } else if str_eq(name, "server_root") {
            self.server_root = value.to_owned();
        }
        Ok(())
    }
}

} // verus!
