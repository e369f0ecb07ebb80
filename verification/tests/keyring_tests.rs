//! Key registry tests: duplicate registration, default resolution,
//! ambiguity, and misses.

use tmkms::keyring::KeyRing;
use tmkms::keyring::ProviderError;
use tmkms::keyring::Signer;
use tmkms::keyring::SigningError;
use tmkms::keyring::SigningProvider;

struct TagProvider {
    tag: u8,
}

impl SigningProvider for TagProvider {
    fn public_key(&self) -> Result<Vec<u8>, ProviderError> {
        Ok(vec![self.tag; 32])
    }
    fn sign(&self, msg: &Vec<u8>) -> Result<Vec<u8>, ProviderError> {
        let mut sig = vec![self.tag];
        sig.extend_from_slice(msg);
        Ok(sig)
    }
}

fn signer(tag: u8, id: &[u8]) -> Signer<TagProvider> {
    Signer::new(b"softsign".to_vec(), id.to_vec(), TagProvider { tag })
}

#[test]
fn duplicate_public_keys_are_refused() {
    let mut ring = KeyRing::new();
    assert!(ring.add(vec![1u8; 32], signer(1, b"a")).is_ok());
    assert_eq!(
        ring.add(vec![1u8; 32], signer(2, b"b")),
        Err(SigningError::DuplicateKey)
    );
    assert!(ring.add(vec![2u8; 32], signer(2, b"b")).is_ok());
}

#[test]
fn single_entry_is_the_default() {
    let mut ring = KeyRing::new();
    ring.add(vec![1u8; 32], signer(5, b"only")).unwrap();
    let sig = ring.sign(None, &vec![10, 20]).unwrap();
    assert_eq!(sig, vec![5, 10, 20]);
}

#[test]
fn empty_ring_has_no_key() {
    let ring: KeyRing<TagProvider> = KeyRing::new();
    assert_eq!(
        ring.sign(None, &vec![1]),
        Err(SigningError::KeyNotFound)
    );
}

#[test]
fn several_entries_need_an_explicit_id() {
    let mut ring = KeyRing::new();
    ring.add(vec![1u8; 32], signer(1, b"first")).unwrap();
    ring.add(vec![2u8; 32], signer(2, b"second")).unwrap();
    assert_eq!(ring.sign(None, &vec![0]), Err(SigningError::AmbiguousKey));
    let sig = ring.sign(Some(&b"second".to_vec()), &vec![0]).unwrap();
    assert_eq!(sig, vec![2, 0]);
    assert_eq!(
        ring.sign(Some(&b"third".to_vec()), &vec![0]),
        Err(SigningError::KeyNotFound)
    );
}
