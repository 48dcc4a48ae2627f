//! Blocks: one addressed chunk of data, sealed and opened on its own.
use vstd::prelude::*;

use crate::address::{identifier_of, identify, is_base32_lower};
use crate::aead::{
    aes256gcm_seal, has_nonce, nonce_of, open_for, open_result, seal_for, MAX_PLAINTEXT_BYTES,
    TAG_SIZE_BYTES,
};
use crate::error::EnCryptError;
use crate::marker::{
    add_marker, has_marker, is_marked, lemma_unmark_marked, marker, strip_marker, unmarked,
};

verus! {

/// The default largest payload of a block, in bytes.
pub const BLOCK_SIZE: usize = 2048;

/// One chunk of data with its identifier and an optional link to the
/// identifier of a next block.
///
/// In plaintext state `cid` is the identifier of `data`; in encrypted state
/// `cid` is that identifier with the encrypted marker appended and `data`
/// is the sealed payload.
#[derive(Clone, Debug)]
pub struct Block {
    pub cid: String,
    pub next: Option<String>,
    pub data: Vec<u8>,
}

/// What a block holds, as mathematical values.
pub struct BlockView {
    pub cid: Seq<char>,
    pub next: Option<Seq<char>>,
    pub data: Seq<u8>,
}

/// The text of an optional identifier.
pub open spec fn opt_text(s: Option<String>) -> Option<Seq<char>> {
    match s {
        Some(t) => Some(t@),
        None => None,
    }
}

impl View for Block {
    type V = BlockView;

    open spec fn view(&self) -> BlockView {
        BlockView { cid: self.cid@, next: opt_text(self.next), data: self.data@ }
    }
}

impl Block {
    /// Whether the block's identifier marks it as encrypted.
    pub open spec fn is_encrypted(&self) -> bool {
        is_marked(self.cid@)
    }

    /// The payload, as stored.
    pub fn into_raw(&self) -> (r: &[u8])
        ensures
            r@ == self.data@,
    {
        self.data.as_slice()
    }

    /// A block with no identifier, no link and no data.
    pub fn new_empty() -> (r: Block)
        ensures
            r.cid@ == Seq::<char>::empty(),
            r.next is None,
            r.data@ == Seq::<u8>::empty(),
    {
        Block { cid: String::new(), next: None, data: Vec::new() }
    }

    /// Stores `buf` as the payload and its identifier as `cid`, where `buf`
    /// holds at most `block_size` bytes; returns the number of bytes stored.
    ///
    /// Fails with `InputTooLarge` where `buf` is longer, and with
    /// `AddressingError` where no identifier could be computed; the block
    /// is then unchanged. The link is never changed.
    pub fn write_limited(&mut self, buf: &[u8], block_size: usize) -> (r: Result<
        usize,
        EnCryptError,
    >)
        ensures
            final(self).next == old(self).next,
            buf@.len() <= block_size && identifier_of(buf@) is Some ==> r is Ok,
            buf@.len() > block_size ==> r == Err::<usize, EnCryptError>(
                EnCryptError::InputTooLarge,
            ) && *final(self) == *old(self),
            buf@.len() <= block_size ==> match r {
                Ok(n) => n == buf@.len() && final(self).data@ == buf@ && identifier_of(buf@)
                    == Some(final(self).cid@) && is_base32_lower(final(self).cid@) && has_nonce(
                    final(self).cid@,
                ),
                Err(e) => e == EnCryptError::AddressingError && *final(self) == *old(self),
            },
    {
        if buf.len() > block_size {
            return Err(EnCryptError::InputTooLarge);
        }
        let cid = identify(buf)?;
        let mut data: Vec<u8> = Vec::new();
        let mut i: usize = 0;
        while i < buf.len()
            invariant
                i <= buf@.len(),
                data@ == buf@.subrange(0, i as int),
            decreases buf@.len() - i,
        {
            data.push(buf[i]);
            i = i + 1;
            assert(data@ =~= buf@.subrange(0, i as int));
        }
        assert(data@ =~= buf@);
        self.cid = cid;
        self.data = data;
        Ok(buf.len())
    }

    /// `write_limited` with the default block size.
    pub fn write(&mut self, buf: &[u8]) -> (r: Result<usize, EnCryptError>)
        ensures
            final(self).next == old(self).next,
            buf@.len() <= BLOCK_SIZE && identifier_of(buf@) is Some ==> r is Ok,
            buf@.len() > BLOCK_SIZE ==> r == Err::<usize, EnCryptError>(
                EnCryptError::InputTooLarge,
            ) && *final(self) == *old(self),
            buf@.len() <= BLOCK_SIZE ==> match r {
                Ok(n) => n == buf@.len() && final(self).data@ == buf@ && identifier_of(buf@)
                    == Some(final(self).cid@) && is_base32_lower(final(self).cid@) && has_nonce(
                    final(self).cid@,
                ),
                Err(e) => e == EnCryptError::AddressingError && *final(self) == *old(self),
            },
    {
        self.write_limited(buf, BLOCK_SIZE)
    }

    /// Copies the start of the payload into `buf`, as many bytes as both
    /// hold, and returns their number. `buf` keeps its length.
    pub fn read(&self, buf: &mut Vec<u8>) -> (r: Result<usize, EnCryptError>)
        ensures
            r is Ok,
            r->Ok_0 == if old(buf)@.len() < self.data@.len() {
                old(buf)@.len()
            } else {
                self.data@.len()
            },
            final(buf)@ == self.data@.subrange(0, r->Ok_0 as int) + old(buf)@.subrange(
                r->Ok_0 as int,
                old(buf)@.len() as int,
            ),
    {
        let n: usize = if buf.len() < self.data.len() {
            buf.len()
        } else {
            self.data.len()
        };
        let mut i: usize = 0;
        while i < n
            invariant
                n <= buf@.len(),
                n <= self.data@.len(),
                n == if old(buf)@.len() < self.data@.len() {
                    old(buf)@.len()
                } else {
                    self.data@.len()
                },
                i <= n,
                buf@.len() == old(buf)@.len(),
                buf@ == self.data@.subrange(0, i as int) + old(buf)@.subrange(
                    i as int,
                    old(buf)@.len() as int,
                ),
            decreases n - i,
        {
            buf.set(i, self.data[i]);
            i = i + 1;
            assert(buf@ =~= self.data@.subrange(0, i as int) + old(buf)@.subrange(
                i as int,
                old(buf)@.len() as int,
            ));
        }
        Ok(n)
    }

    /// Appends the whole payload to `buf` and returns its length.
    pub fn read_to_end(&self, buf: &mut Vec<u8>) -> (r: Result<usize, EnCryptError>)
        ensures
            r is Ok,
            r->Ok_0 == self.data@.len(),
            final(buf)@ == old(buf)@ + self.data@,
    {
        let mut i: usize = 0;
        while i < self.data.len()
            invariant
                i <= self.data@.len(),
                buf@ == old(buf)@ + self.data@.subrange(0, i as int),
            decreases self.data@.len() - i,
        {
            buf.push(self.data[i]);
            i = i + 1;
            assert(buf@ =~= old(buf)@ + self.data@.subrange(0, i as int));
        }
        assert(self.data@.subrange(0, i as int) =~= self.data@);
        Ok(self.data.len())
    }

    /// Seals the payload under `key` with the nonce of the plaintext
    /// identifier, and marks the identifier as encrypted. The link is kept.
    ///
    /// Fails with `WrongState` on a block already marked encrypted, with
    /// `AddressingError` where the identifier gives no nonce, and with
    /// `InputTooLarge` where the cipher refuses the payload.
    pub fn encrypt(self, key: &[u8; 32]) -> (r: Result<Block, EnCryptError>)
        ensures
            match block_encrypt_error(self) {
                Some(e) => r == Err::<Block, EnCryptError>(e),
                None => r is Ok && is_block_encryption(self, key@, r->Ok_0),
            },
    {
        if has_marker(self.cid.as_str()) {
            return Err(EnCryptError::WrongState);
        }
        let sealed = seal_for(self.cid.as_str(), key, self.data.as_slice())?;
        let cid = add_marker(self.cid.as_str());
        Ok(Block { cid, next: self.next, data: sealed })
    }

    /// Opens the payload under `key` with the nonce of the identifier
    /// without its encrypted marker, and removes the marker. The link is
    /// kept.
    ///
    /// Fails with `WrongState` on a block not marked encrypted, with
    /// `AddressingError` where the identifier gives no nonce, and with
    /// `AuthenticationFailure` where the tag does not verify. Opening what
    /// `encrypt` gave under the same key gives back the block it came from.
    pub fn decrypt(self, key: &[u8; 32]) -> (r: Result<Block, EnCryptError>)
        ensures
            match block_decrypt_error(self, key@) {
                Some(e) => r == Err::<Block, EnCryptError>(e),
                None => r is Ok && is_block_decryption(self, key@, r->Ok_0),
            },
            block_decrypt_inverts(self, key@, r),
    {
        if !has_marker(self.cid.as_str()) {
            proof {
                assert forall|q: Block|
                    block_encrypt_error(q) is None && #[trigger] is_block_encryption(
                        q,
                        key@,
                        self,
                    ) implies false by {
                    lemma_unmark_marked(q.cid@);
                }
            }
            return Err(EnCryptError::WrongState);
        }
        let ghost old_self = self;
        let cid = strip_marker(self.cid.as_str());
        let opened = open_for(cid.as_str(), key, self.data.as_slice());
        let r = match opened {
            Ok(p) => Ok(Block { cid, next: self.next, data: p }),
            Err(e) => Err(e),
        };
        proof {
            assert forall|q: Block|
                block_encrypt_error(q) is None && #[trigger] is_block_encryption(
                    q,
                    key@,
                    old_self,
                ) implies r is Ok && r->Ok_0.cid@ == q.cid@ && r->Ok_0.next == q.next
                && r->Ok_0.data@ == q.data@ by {
                lemma_unmark_marked(q.cid@);
            }
        }
        r
    }
}

/// The error that encrypting `b` gives, if any.
pub open spec fn block_encrypt_error(b: Block) -> Option<EnCryptError> {
    if b.is_encrypted() {
        Some(EnCryptError::WrongState)
    } else if !has_nonce(b.cid@) {
        Some(EnCryptError::AddressingError)
    } else if b.data@.len() > MAX_PLAINTEXT_BYTES {
        Some(EnCryptError::InputTooLarge)
    } else {
        None
    }
}

/// `e` is the encryption of `b` under `key`.
pub open spec fn is_block_encryption(b: Block, key: Seq<u8>, e: Block) -> bool {
    &&& e.cid@ == b.cid@ + marker()
    &&& e.next == b.next
    &&& e.data@ == aes256gcm_seal(key, nonce_of(b.cid@), b.data@)
    &&& e.data@.len() == b.data@.len() + TAG_SIZE_BYTES
}

/// The error that decrypting `b` under `key` gives, if any.
pub open spec fn block_decrypt_error(b: Block, key: Seq<u8>) -> Option<EnCryptError> {
    if !b.is_encrypted() {
        Some(EnCryptError::WrongState)
    } else if !has_nonce(unmarked(b.cid@)) {
        Some(EnCryptError::AddressingError)
    } else if open_result(key, nonce_of(unmarked(b.cid@)), b.data@) is None {
        Some(EnCryptError::AuthenticationFailure)
    } else {
        None
    }
}

/// `d` is the decryption of `b` under `key`.
pub open spec fn is_block_decryption(b: Block, key: Seq<u8>, d: Block) -> bool {
    &&& d.cid@ == unmarked(b.cid@)
    &&& d.next == b.next
    &&& open_result(key, nonce_of(unmarked(b.cid@)), b.data@) == Some(d.data@)
}

/// `r`, the result of decrypting `e` under `key`, gives back every block
/// whose encryption under `key` is `e`.
pub open spec fn block_decrypt_inverts(e: Block, key: Seq<u8>, r: Result<Block, EnCryptError>) -> bool {
    forall|q: Block|
        block_encrypt_error(q) is None && #[trigger] is_block_encryption(q, key, e) ==> r is Ok
            && r->Ok_0.cid@ == q.cid@ && r->Ok_0.next == q.next && r->Ok_0.data@ == q.data@
}

} // verus!
