//! Container: an encrypted block store on top of a raw backend.
//!
//! A container owns one backend instance and one cipher selection for its
//! lifetime.  Every block written through it is the backend's block content
//! decrypted under the active cipher; every block read is decrypted before
//! it reaches the caller.  Backend failures and binary (de)serialization
//! failures are unified into one error channel, [`ContainerError`].

use crate::backend::{Backend, BlockId};
use crate::bytes;
use vstd::prelude::*;

verus! {

/// The encryption transform applied uniformly to all block payloads.
///
/// `Off` is the pass-through transform: ciphertext equals plaintext.  It
/// enables deterministic testing of the stream layer independent of any
/// cipher implementation.  Concrete cipher algorithms and key material are
/// external collaborators, outside this core.
#[derive(Clone, Copy, Debug, PartialEq, Eq, Structural)]
pub enum Cipher {
    /// Pass-through: no encryption.
    Off,
}

/// Error type used by the container module.
///
/// It unifies the two failure domains below the container into one type,
/// so callers handle a single error channel regardless of which layer
/// failed.
#[derive(Debug)]
pub enum ContainerError<B: Backend> {
    /// An error occured in the attached backend.
    Backend(B::Err),
    /// Error while (de-) serializing binary data.
    Bytes(bytes::Error),
}

impl<B: Backend> From<bytes::Error> for ContainerError<B> {
    fn from(cause: bytes::Error) -> (r: Self) {
        ContainerError::Bytes(cause)
    }
}

impl<B: Backend> vstd::std_specs::convert::FromSpecImpl<bytes::Error> for ContainerError<B> {
    open spec fn obeys_from_spec() -> bool {
        true
    }

    open spec fn from_spec(cause: bytes::Error) -> Self {
        ContainerError::Bytes(cause)
    }
}

/// Result type used by the container module.
pub type ContainerResult<T, B> = Result<T, ContainerError<B>>;

/// Options bundle for creating a container: a backend-specific
/// configuration plus a cipher selection.
pub struct CreateOptions<B: Backend> {
    backend: B::Options,
    cipher: Cipher,
}

impl<B: Backend> CreateOptions<B> {
    /// The cipher this option set selects.
    pub closed spec fn cipher(self) -> Cipher {
        self.cipher
    }
}

/// Builder for [`CreateOptions`].
pub struct CreateOptionsBuilder<B: Backend> {
    backend: B::Options,
    cipher: Cipher,
}

impl<B: Backend> CreateOptionsBuilder<B> {
    /// Starts an option set from backend options and a cipher selection.
    pub fn new(backend: B::Options, cipher: Cipher) -> (r: Self)
        ensures
            r.cipher_sel() == cipher,
    {
        CreateOptionsBuilder { backend, cipher }
    }

    /// The cipher this builder carries.
    pub closed spec fn cipher_sel(self) -> Cipher {
        self.cipher
    }

    /// Finishes the option set.
    pub fn build(self) -> (r: ContainerResult<CreateOptions<B>, B>)
        ensures
            match r {
                Ok(o) => o.cipher() == self.cipher_sel(),
                Err(_) => false,
            },
    {
        Ok(CreateOptions { backend: self.backend, cipher: self.cipher })
    }
}

/// An encrypted block store: one backend plus one cipher, owned for the
/// container's lifetime.
pub struct Container<B: Backend> {
    backend: B,
    cipher: Cipher,
}

impl<B: Backend> Container<B> {
    /// The implementation's internal consistency condition.
    pub closed spec fn inv(self) -> bool {
        self.backend.inv()
    }

    /// The cipher selected when the container was created.
    pub closed spec fn cipher(self) -> Cipher {
        self.cipher
    }

    /// The ids handed out so far.
    pub closed spec fn allocated(self) -> Set<B::Id> {
        self.backend.allocated()
    }

    /// The plaintext contents of every block written so far.  Under
    /// `Cipher::Off` the stored ciphertext equals the plaintext.
    pub closed spec fn blocks(self) -> Map<B::Id, Seq<u8>> {
        self.backend.blocks()
    }

    /// Every written block was allocated, and the null id never is.
    pub proof fn lemma_inv(self)
        requires
            self.inv(),
        ensures
            self.blocks().dom().subset_of(self.allocated()),
            !self.allocated().contains(B::Id::null_spec()),
    {
        self.backend.lemma_inv();
    }

    /// Builds the backend instance from `options` and returns an owning
    /// container holding no blocks.  Fails if backend initialization fails.
    pub fn create(options: CreateOptions<B>) -> (r: ContainerResult<Self, B>)
        ensures
            match r {
                Ok(c) => {
                    &&& c.inv()
                    &&& c.cipher() == options.cipher()
                    &&& c.allocated() == Set::<B::Id>::empty()
                    &&& c.blocks() == Map::<B::Id, Seq<u8>>::empty()
                },
                Err(e) => e is Backend,
            },
    {
        match B::create(options.backend) {
            Ok(b) => Ok(Container { backend: b, cipher: options.cipher }),
            Err(e) => Err(ContainerError::Backend(e)),
        }
    }

    /// Allocates a fresh, currently unused block id.  Ids are not
    /// encrypted data, so no cipher is involved.
    pub fn aquire(&mut self) -> (r: ContainerResult<B::Id, B>)
        requires
            old(self).inv(),
        ensures
            final(self).inv(),
            final(self).cipher() == old(self).cipher(),
            match r {
                Ok(id) => {
                    &&& !old(self).allocated().contains(id)
                    &&& id != B::Id::null_spec()
                    &&& final(self).allocated() == old(self).allocated().insert(id)
                    &&& final(self).blocks() == old(self).blocks()
                },
                Err(e) => *final(self) == *old(self) && e is Backend,
            },
    {
        match self.backend.aquire() {
            Ok(id) => Ok(id),
            Err(e) => Err(ContainerError::Backend(e)),
        }
    }

    /// Encrypts `plaintext` under the active cipher and writes the
    /// ciphertext at `id`.  Fails if and only if `id` was never allocated.
    pub fn write(&mut self, id: &B::Id, plaintext: &[u8]) -> (r: ContainerResult<(), B>)
        requires
            old(self).inv(),
        ensures
            final(self).inv(),
            final(self).cipher() == old(self).cipher(),
            match r {
                Ok(_) => {
                    &&& old(self).allocated().contains(*id)
                    &&& final(self).allocated() == old(self).allocated()
                    &&& final(self).blocks() == old(self).blocks().insert(*id, plaintext@)
                },
                Err(e) => {
                    &&& !old(self).allocated().contains(*id)
                    &&& *final(self) == *old(self)
                    &&& e is Backend
                },
            },
    {
        let r = match self.cipher {
            Cipher::Off => self.backend.write(id, plaintext),
        };
        match r {
            Ok(_) => Ok(()),
            Err(e) => Err(ContainerError::Backend(e)),
        }
    }

    /// Reads the ciphertext at `id` and decrypts it under the active
    /// cipher.  Fails if and only if `id` was never written.
    pub fn read(&mut self, id: &B::Id) -> (r: ContainerResult<Vec<u8>, B>)
        requires
            old(self).inv(),
        ensures
            final(self).inv(),
            final(self).cipher() == old(self).cipher(),
            final(self).allocated() == old(self).allocated(),
            final(self).blocks() == old(self).blocks(),
            match r {
                Ok(v) => {
                    &&& old(self).blocks().contains_key(*id)
                    &&& v@ == old(self).blocks()[*id]
                },
                Err(e) => !old(self).blocks().contains_key(*id) && e is Backend,
            },
    {
        let r = match self.cipher {
            Cipher::Off => self.backend.read(id),
        };
        match r {
            Ok(v) => Ok(v),
            Err(e) => Err(ContainerError::Backend(e)),
        }
    }
}

} // verus!
