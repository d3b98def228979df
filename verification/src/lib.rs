//! A configuration-management layer for WireGuard interfaces: key material
//! with its base64 text form, CIDR allowed-IP and endpoint text forms,
//! validated interface names, peer and device builders, and the meaning of
//! applying a device update against backend-visible interface state.
pub mod b64;
pub mod device;
pub mod iface;
pub mod ip;
pub mod key;
pub mod peer;
pub mod registry;
pub mod text;

use vstd::prelude::*;

verus! {

/// The error kinds this library reports. Backend failures carry no payload
/// here; the adapter around the library keeps the backend's own message.
#[derive(Clone, Copy, Debug, PartialEq, Eq, Structural)]
pub enum WgError {
    InvalidKeyFormat,
    InvalidCidr,
    InvalidEndpoint,
    InvalidInterfaceName,
    NotFound,
    Backend,
}

impl WgError {
    /// A short description of the error, one per kind.
    pub fn message(&self) -> (r: String)
        ensures
            *self == WgError::InvalidKeyFormat ==> r@ == "invalid key format"@,
            *self == WgError::InvalidCidr ==> r@ == "invalid allowed ip"@,
            *self == WgError::InvalidEndpoint ==> r@ == "invalid endpoint"@,
            *self == WgError::InvalidInterfaceName ==> r@ == "invalid interface name"@,
            *self == WgError::NotFound ==> r@ == "not found"@,
            *self == WgError::Backend ==> r@ == "backend failure"@,
    {
        match self {
            WgError::InvalidKeyFormat => "invalid key format".to_owned(),
            WgError::InvalidCidr => "invalid allowed ip".to_owned(),
            WgError::InvalidEndpoint => "invalid endpoint".to_owned(),
            WgError::InvalidInterfaceName => "invalid interface name".to_owned(),
            WgError::NotFound => "not found".to_owned(),
            WgError::Backend => "backend failure".to_owned(),
        }
    }
}

} // verus!
