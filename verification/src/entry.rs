use vstd::prelude::*;

verus! {

/// Number of random salt bytes in every record.
pub const SALT_LEN: usize = 16;

/// Number of random nonce bytes in every record.
pub const NONCE_LEN: usize = 12;

/// Length of the authentication tag appended to the ciphertext.
pub const TAG_LEN: usize = 16;

/// One sealed secret: the salt used to derive its one-time key, the nonce
/// used by the cipher, and the authenticated ciphertext (ciphertext bytes
/// followed by the tag). A record is immutable once sealed; overwriting an
/// entry means sealing a brand-new record.
#[derive(Debug)]
pub struct Entry {
    pub salt: Vec<u8>,
    pub nonce: Vec<u8>,
    pub cipher_text: Vec<u8>,
}

/// Mathematical image of an [`Entry`]: its three byte sequences.
pub struct EntryView {
    pub salt: Seq<u8>,
    pub nonce: Seq<u8>,
    pub cipher_text: Seq<u8>,
}

impl View for Entry {
    type V = EntryView;

    open spec fn view(&self) -> EntryView {
        EntryView { salt: self.salt@, nonce: self.nonce@, cipher_text: self.cipher_text@ }
    }
}

impl Clone for Entry {
    fn clone(&self) -> (r: Self)
        ensures
            r@ == self@,
    {
        Entry { salt: self.salt.clone(), nonce: self.nonce.clone(), cipher_text: self.cipher_text.clone() }
    }
}

} // verus!
