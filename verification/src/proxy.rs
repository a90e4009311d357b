//! The system proxy setting, decided from what was read out of the
//! configuration store.
//!
//! Reading the store is the caller's part. It reports what it found as a
//! [`StoreReading`], or the error that kept it from opening the store, and
//! [`SystemProxy::get_system_proxy`] decides what that amounts to.

use crate::addr::{AddrParseError, IpAddr};
use crate::parser::parse_socket_addr;
use crate::syntax::socket_addr_text;
use vstd::prelude::*;
use vstd::std_specs::convert::FromSpecImpl;
use vstd::utf8::encode_utf8;

verus! {

/// The key of the machine-wide TCP/IP parameters, below `HKEY_LOCAL_MACHINE`.
pub const PARAMETERS_KEY: &'static str = "SYSTEM\\CurrentControlSet\\Services\\Tcpip\\Parameters";

/// The name of the 32-bit value that is `1` where the proxy is switched on.
pub const ENABLE_PROXY: &'static str = "EnableProxy";

/// The name of the string value that holds the proxy as `host:port`.
pub const PROXY_SERVER: &'static str = "ProxyServer";

/// `std::io::Error`, the error of the operating system. Nothing is known of
/// what a value holds; it is only handed on.
#[verifier::external_type_specification]
#[verifier::external_body]
pub struct ExIoError(std::io::Error);

/// Why no proxy setting could be given.
#[derive(Debug)]
pub enum Error {
    /// The store could not be opened, or the server value could not be read.
    IOError(std::io::Error),
    /// The server value is not empty and is not a socket address.
    AddrParse(AddrParseError),
    /// The server value is empty: no proxy is configured.
    MissingProxyConfig,
}

impl From<std::io::Error> for Error {
    fn from(e: std::io::Error) -> (r: Error) {
        Error::IOError(e)
    }
}

impl FromSpecImpl<std::io::Error> for Error {
    open spec fn obeys_from_spec() -> bool {
        true
    }

    open spec fn from_spec(e: std::io::Error) -> Error {
        Error::IOError(e)
    }
}

impl From<AddrParseError> for Error {
    fn from(e: AddrParseError) -> (r: Error) {
        Error::AddrParse(e)
    }
}

impl FromSpecImpl<AddrParseError> for Error {
    open spec fn obeys_from_spec() -> bool {
        true
    }

    open spec fn from_spec(e: AddrParseError) -> Error {
        Error::AddrParse(e)
    }
}

/// What one look into the opened store gave: the outcome of reading each of
/// the two values.
#[derive(Debug)]
pub struct StoreReading {
    /// The value named [`ENABLE_PROXY`], read as a 32-bit integer.
    pub enable_proxy: Result<u32, std::io::Error>,
    /// The value named [`PROXY_SERVER`], read as a string.
    pub proxy_server: Result<String, std::io::Error>,
}

impl StoreReading {
    /// Whether the flag was read and is exactly `1`. A flag that is missing,
    /// unreadable or of another type counts as not set.
    pub open spec fn flag_set(self) -> bool {
        match self.enable_proxy {
            Ok(flag) => flag == 1,
            Err(_) => false,
        }
    }
}

/// The bytes of a string.
pub open spec fn bytes_of(s: String) -> Seq<u8> {
    encode_utf8(s@)
}

/// The proxy that the system is configured to use.
#[derive(Debug, Clone, Copy, PartialEq, Eq)]
pub struct SystemProxy {
    /// Whether the proxy is switched on.
    pub enabled: bool,
    /// The host of the proxy.
    pub address: IpAddr,
    /// The port of the proxy.
    pub port: u16,
}

impl SystemProxy {
    /// Decides the proxy setting from what the store gave. `store` is the
    /// error that kept the store from being opened, or what was read from it.
    ///
    /// Only the flag may be missing: it then counts as off. An unreadable
    /// server value is an error, an empty one means that no proxy is
    /// configured, and any other has to be a socket address in full.
    pub fn get_system_proxy(store: Result<StoreReading, std::io::Error>) -> (r: Result<
        SystemProxy,
        Error,
    >)
        ensures
            r == match store {
                Err(e) => Err::<SystemProxy, Error>(Error::IOError(e)),
                Ok(reading) => match reading.proxy_server {
                    Err(e) => Err(Error::IOError(e)),
                    Ok(server) => if server@.len() == 0 {
                        Err(Error::MissingProxyConfig)
                    } else {
                        match socket_addr_text(bytes_of(server)) {
                            None => Err(Error::AddrParse(AddrParseError)),
                            Some(addr) => Ok(
                                SystemProxy {
                                    enabled: reading.flag_set(),
                                    address: addr.ip,
                                    port: addr.port,
                                },
                            ),
                        }
                    },
                },
            },
            store is Err ==> r is Err && r->Err_0 is IOError,
            store is Ok && store->Ok_0.proxy_server is Ok && store->Ok_0.proxy_server->Ok_0@.len()
                == 0 ==> r == Err::<SystemProxy, Error>(Error::MissingProxyConfig),
            r is Ok ==> r->Ok_0.enabled == (store->Ok_0.enable_proxy == Ok::<u32, std::io::Error>(
                1u32,
            )),
    {
        let reading = match store {
            Ok(reading) => reading,
            Err(e) => {
                return Err(Error::from(e));
            },
        };
        let enabled = match reading.enable_proxy {
            Ok(flag) => flag == 1,
            Err(_) => false,
        };
        let server = match reading.proxy_server {
            Ok(server) => server,
            Err(e) => {
                return Err(Error::from(e));
            },
        };
        if server.as_str().is_empty() {
            return Err(Error::MissingProxyConfig);
        }
        match parse_socket_addr(server.as_str().as_bytes()) {
            Ok(addr) => Ok(SystemProxy { enabled, address: addr.ip, port: addr.port }),
            Err(e) => Err(Error::from(e)),
        }
    }
}

} // verus!
