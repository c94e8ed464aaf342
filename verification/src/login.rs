//! The login state: which account, if any, the application acts as.
//!
//! The surrounding application persists the state; the storage value
//! crosses this boundary as a plain `LoginKind`.

use vstd::prelude::*;

verus! {

/// The kind of account material held.
#[derive(Clone, Copy, Debug)]
pub enum LoginKind {
    /// A public key alone: reading, no signing.
    PublicKey { key: [u8; 32] },
    /// A private key: reading and signing.
    PrivateKey { key: [u8; 32] },
    /// Nobody.
    LoggedOut,
}

/// The current login.
pub struct Login {
    kind: LoginKind,
}

impl Login {
    /// The current account material.
    pub closed spec fn current(self) -> LoginKind {
        self.kind
    }

    /// A logged-out login.
    pub fn new() -> (r: Login)
        ensures
            r.current() is LoggedOut,
    {
        Login { kind: LoginKind::LoggedOut }
    }

    /// Restores the state the storage held, if it held any.
    pub fn load(&mut self, stored: Option<LoginKind>)
        ensures
            final(self).current() == match stored {
                Some(k) => k,
                None => old(self).current(),
            },
    {
        if let Some(k) = stored {
            self.kind = k;
        }
    }

    /// The state for the storage to persist.
    pub fn save(&self) -> (r: LoginKind)
        ensures
            r == self.current(),
    {
        self.kind
    }

    /// Switches to the given account material.
    pub fn login(&mut self, kind: LoginKind)
        ensures
            final(self).current() == kind,
    {
        self.kind = kind;
    }

    /// Whether any account is active.
    pub fn is_logged_in(&self) -> (r: bool)
        ensures
            r == !(self.current() is LoggedOut),
    {
        match self.kind {
            LoginKind::LoggedOut => false,
            _ => true,
        }
    }
}

} // verus!
