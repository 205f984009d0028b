//! Certificates that a remote connection presents.
//!
//! A certificate is one of two shapes: the host key of an SSH server, given
//! by its hashes, or an X.509 certificate, given by its encoded bytes. A
//! certificate borrows from the connection that produced it.

use vstd::prelude::*;

verus! {

/// The flag that says that a host key carries its MD5 hash.
pub const CERT_SSH_MD5: u32 = 1;

/// The flag that says that a host key carries its SHA-1 hash.
pub const CERT_SSH_SHA1: u32 = 2;

/// The host key of an SSH server.
#[derive(Clone, Copy, Debug)]
pub struct CertHostkey<'a> {
    kind: u32,
    hash_md5: &'a [u8; 16],
    hash_sha1: &'a [u8; 20],
}

/// An X.509 certificate.
#[derive(Clone, Copy, Debug)]
pub struct CertX509<'a> {
    data: &'a [u8],
}

/// A certificate for a remote connection: a host key or an X.509
/// certificate.
#[derive(Clone, Copy, Debug)]
pub enum Cert<'a> {
    Hostkey(CertHostkey<'a>),
    X509(CertX509<'a>),
}

impl<'a> Cert<'a> {
    /// The certificate as a host key; none if it is an X.509 certificate.
    pub fn as_hostkey(&self) -> (r: Option<&CertHostkey<'a>>)
        ensures
            r == match self {
                Cert::Hostkey(h) => Some(h),
                Cert::X509(_) => None,
            },
    {
        match self {
            Cert::Hostkey(h) => Some(h),
            Cert::X509(_) => None,
        }
    }

    /// The certificate as an X.509 certificate; none if it is a host key.
    pub fn as_x509(&self) -> (r: Option<&CertX509<'a>>)
        ensures
            r == match self {
                Cert::Hostkey(_) => None,
                Cert::X509(c) => Some(c),
            },
    {
        match self {
            Cert::Hostkey(_) => None,
            Cert::X509(c) => Some(c),
        }
    }
}

impl<'a> CertHostkey<'a> {
    /// The flags that say which hashes the host key carries.
    pub closed spec fn kind(&self) -> u32 {
        self.kind
    }

    /// The bytes in the place of the MD5 hash.
    pub closed spec fn md5(&self) -> Seq<u8> {
        self.hash_md5@
    }

    /// The bytes in the place of the SHA-1 hash.
    pub closed spec fn sha1(&self) -> Seq<u8> {
        self.hash_sha1@
    }

    /// Whether the host key carries its MD5 hash.
    pub open spec fn has_md5(&self) -> bool {
        self.kind() & CERT_SSH_MD5 != 0
    }

    /// Whether the host key carries its SHA-1 hash.
    pub open spec fn has_sha1(&self) -> bool {
        self.kind() & CERT_SSH_SHA1 != 0
    }

    /// A host key with the given flags and hashes. A hash counts only if
    /// its flag is set in `kind`.
    pub fn new(kind: u32, hash_md5: &'a [u8; 16], hash_sha1: &'a [u8; 20]) -> (key: CertHostkey<'a>)
        ensures
            key.kind() == kind,
            key.md5() == hash_md5@,
            key.sha1() == hash_sha1@,
    {
        CertHostkey { kind, hash_md5, hash_sha1 }
    }

    /// The MD5 hash of the host key, if the key carries it.
    pub fn hash_md5(&self) -> (r: Option<&'a [u8; 16]>)
        ensures
            r is Some <==> self.has_md5(),
            r matches Some(h) ==> h@ == self.md5(),
    {
        if self.kind & CERT_SSH_MD5 == 0 {
            None
        } else {
            Some(self.hash_md5)
        }
    }

    /// The SHA-1 hash of the host key, if the key carries it.
    pub fn hash_sha1(&self) -> (r: Option<&'a [u8; 20]>)
        ensures
            r is Some <==> self.has_sha1(),
            r matches Some(h) ==> h@ == self.sha1(),
    {
        if self.kind & CERT_SSH_SHA1 == 0 {
            None
        } else {
            Some(self.hash_sha1)
        }
    }
}

impl<'a> CertX509<'a> {
    /// The encoded bytes of the certificate.
    pub closed spec fn view(&self) -> Seq<u8> {
        self.data@
    }

    /// An X.509 certificate with the given encoded bytes.
    pub fn new(data: &'a [u8]) -> (cert: CertX509<'a>)
        ensures
            cert@ == data@,
    {
        CertX509 { data }
    }

    /// The encoded bytes of the certificate.
    pub fn data(&self) -> (r: &'a [u8])
        ensures
            r@ == self@,
    {
        self.data
    }
}

} // verus!
