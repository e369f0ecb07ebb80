//! The signing provider capability contract and the registry that binds
//! public keys to provider sessions and resolves which one signs a request.

use vstd::prelude::*;

use crate::codec::bytes_eq;

verus! {

/// Why a provider could not produce what was asked of it.
#[derive(Clone, Copy, PartialEq, Eq, Structural, Debug)]
pub enum ProviderError {
    /// The device or session cannot be reached.
    ProviderUnavailable,
    /// The backend refused to sign this payload.
    SigningRejected,
}

/// The capability contract every key-custody backend implements: produce the
/// session's public key, and produce a signature over a byte string. The
/// registry and the pipeline depend only on this contract; what a backend
/// answers is its own affair, so nothing is promised of the results.
pub trait SigningProvider {
    /// The public key of the bound session.
    fn public_key(&self) -> Result<Vec<u8>, ProviderError>;

    /// A signature over `msg` by the bound session's private key.
    fn sign(&self, msg: &Vec<u8>) -> Result<Vec<u8>, ProviderError>;
}

/// A named, bound provider session.
pub struct Signer<P> {
    /// Which backend kind this session belongs to.
    pub provider_label: Vec<u8>,
    /// The identifier under which requests select this session.
    pub key_id: Vec<u8>,
    /// The session itself; the registry holds its single ownership.
    pub provider: P,
}

impl<P> Signer<P> {
    /// Binds a provider session under a backend label and key identifier.
    pub fn new(provider_label: Vec<u8>, key_id: Vec<u8>, provider: P) -> (s: Signer<P>)
        ensures
            s.provider_label@ == provider_label@,
            s.key_id@ == key_id@,
            s.provider == provider,
    {
        Signer { provider_label, key_id, provider }
    }
}

/// One registry entry: a public key and the session that owns it.
pub struct KeyEntry<P> {
    /// The public key this entry answers for.
    pub public_key: Vec<u8>,
    /// The bound session.
    pub signer: Signer<P>,
}

/// Why the registry refused a request.
#[derive(Clone, Copy, PartialEq, Eq, Structural, Debug)]
pub enum SigningError {
    /// An entry with the same public key is already registered.
    DuplicateKey,
    /// No entry matches the requested key, or the registry is empty.
    KeyNotFound,
    /// Several entries exist and the request names none of them.
    AmbiguousKey,
    /// The resolved provider failed.
    Provider(ProviderError),
}

/// The process-wide table of signing keys: populated once at startup, read
/// on every request.
pub struct KeyRing<P> {
    entries: Vec<KeyEntry<P>>,
}

impl<P: SigningProvider> KeyRing<P> {
    /// The registered bindings, in registration order: each entry's public
    /// key together with the key identifier its session answers under.
    pub closed spec fn entries_view(self) -> Seq<(Seq<u8>, Seq<u8>)> {
        self.entries@.map_values(|e: KeyEntry<P>| (e.public_key@, e.signer.key_id@))
    }

    /// How many keys are registered.
    pub closed spec fn key_count(self) -> nat {
        self.entries@.len()
    }

    /// Whether a key with these public-key bytes is registered.
    pub closed spec fn has_key(self, pk: Seq<u8>) -> bool {
        exists|i: int| 0 <= i < self.entries@.len() && self.entries@[i].public_key@ == pk
    }

    /// Whether an entry is registered under this key identifier.
    pub closed spec fn has_id(self, id: Seq<u8>) -> bool {
        exists|i: int| 0 <= i < self.entries@.len() && self.entries@[i].signer.key_id@ == id
    }

    /// An empty registry.
    pub fn new() -> (r: KeyRing<P>)
        ensures
            r.key_count() == 0,
            forall|pk: Seq<u8>| !r.has_key(pk),
            forall|id: Seq<u8>| !r.has_id(id),
    {
        let r = KeyRing { entries: Vec::new() };
        proof {
            assert(r.entries@.len() == 0);
        }
        r
    }

    /// Registers a new key bound to `signer`; a public key may be registered
    /// only once.
    pub fn add(&mut self, public_key: Vec<u8>, signer: Signer<P>) -> (r: Result<
        (),
        SigningError,
    >)
        ensures
            match r {
                Err(e) => e == SigningError::DuplicateKey && old(self).has_key(public_key@)
                    && *final(self) == *old(self),
                Ok(()) => !old(self).has_key(public_key@) && final(self).entries_view() == old(
                    self,
                ).entries_view().push((public_key@, signer.key_id@)) && final(self).key_count()
                    == old(self).key_count() + 1 && final(self).has_key(public_key@)
                    && final(self).has_id(signer.key_id@) && (forall|pk: Seq<u8>|
                    old(self).has_key(pk) ==> final(self).has_key(pk)) && (forall|id: Seq<u8>|
                    old(self).has_id(id) ==> final(self).has_id(id)),
            },
    {
        let mut i: usize = 0;
        while i < self.entries.len()
            invariant
                i <= self.entries@.len(),
                forall|j: int| 0 <= j < i ==> self.entries@[j].public_key@ != public_key@,
            decreases self.entries@.len() - i,
        {
            if bytes_eq(&self.entries[i].public_key, &public_key) {
                return Err(SigningError::DuplicateKey);
            }
            i = i + 1;
        }
        let ghost n = self.entries@.len() as int;
        self.entries.push(KeyEntry { public_key, signer });
        proof {
            assert(self.entries_view() =~= old(self).entries_view().push(
                (self.entries@[n].public_key@, self.entries@[n].signer.key_id@),
            ));
            assert(self.entries@[n].public_key@ == public_key@);
            assert(self.entries@[n].signer.key_id@ == signer.key_id@);
            assert forall|pk: Seq<u8>| old(self).has_key(pk) implies self.has_key(pk) by {
                let j = choose|j: int|
                    0 <= j < old(self).entries@.len() && old(self).entries@[j].public_key@ == pk;
                assert(self.entries@[j].public_key@ == pk);
            }
            assert forall|id: Seq<u8>| old(self).has_id(id) implies self.has_id(id) by {
                let j = choose|j: int|
                    0 <= j < old(self).entries@.len() && old(self).entries@[j].signer.key_id@
                        == id;
                assert(self.entries@[j].signer.key_id@ == id);
            }
        }
        Ok(())
    }

    /// Signs `msg` with the entry the request resolves to: the first entry
    /// registered under `key_id`, or the single registered entry when none
    /// is named. With several entries and no name the request is ambiguous;
    /// with no match there is nothing to sign with. What the provider
    /// answers is passed through: a request reaches a provider exactly when
    /// it resolves, and the answering entry's binding stands in
    /// [`Self::entries_view`].
    pub fn sign(&self, key_id: Option<&Vec<u8>>, msg: &Vec<u8>) -> (r: Result<
        Vec<u8>,
        SigningError,
    >)
        ensures
            r == Err::<Vec<u8>, SigningError>(SigningError::AmbiguousKey) <==> (key_id is None
                && self.key_count() > 1),
            r == Err::<Vec<u8>, SigningError>(SigningError::KeyNotFound) <==> (match key_id {
                None => self.key_count() == 0,
                Some(id) => !self.has_id(id@),
            }),
            r matches Err(e) ==> (e == SigningError::AmbiguousKey || e == SigningError::KeyNotFound
                || e matches SigningError::Provider(_)),
            (r is Ok || r matches Err(SigningError::Provider(_))) <==> (match key_id {
                None => self.key_count() == 1,
                Some(id) => self.has_id(id@),
            }),
            (r is Ok || r matches Err(SigningError::Provider(_))) ==> (match key_id {
                None => self.entries_view().len() == 1,
                Some(id) => exists|i: int|
                    0 <= i < self.entries_view().len() && (#[trigger] self.entries_view()[i]).1
                        == id@ && (forall|j: int|
                        0 <= j < i ==> self.entries_view()[j].1 != id@),
            }),
    {
        match key_id {
            None => {
                if self.entries.len() == 0 {
                    Err(SigningError::KeyNotFound)
                } else if self.entries.len() > 1 {
                    Err(SigningError::AmbiguousKey)
                } else {
                    match self.entries[0].signer.provider.sign(msg) {
                        Ok(sig) => Ok(sig),
                        Err(e) => Err(SigningError::Provider(e)),
                    }
                }
            },
            Some(id) => {
                let mut i: usize = 0;
                while i < self.entries.len()
                    invariant
                        key_id == Some(id),
                        i <= self.entries@.len(),
                        forall|j: int| 0 <= j < i ==> self.entries@[j].signer.key_id@ != id@,
                    decreases self.entries@.len() - i,
                {
                    if bytes_eq(&self.entries[i].signer.key_id, id) {
                        proof {
                            assert(self.entries@[i as int].signer.key_id@ == id@);
                            assert(self.has_id(id@));
                            assert(self.entries_view()[i as int].1 == id@);
                            assert(forall|j: int|
                                0 <= j < i ==> (#[trigger] self.entries_view()[j]).1 != id@);
                        }
                        return match self.entries[i].signer.provider.sign(msg) {
                            Ok(sig) => Ok(sig),
                            Err(e) => Err(SigningError::Provider(e)),
                        };
                    }
                    i = i + 1;
                }
                Err(SigningError::KeyNotFound)
            },
        }
    }
}

} // verus!
