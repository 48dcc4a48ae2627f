//! Wrappers and pointers: an ordered sequence of blocks and a metadata blob
//! bound under one aggregate identifier.
use vstd::prelude::*;
use vstd::arithmetic::div_mod::lemma_fundamental_div_mod_converse;
use vstd::utf8::encode_utf8;

use crate::address::{identifier_of, identify, is_base32_lower};
use crate::aead::{
    aes256gcm_seal, has_nonce, nonce_of, open_for, open_result, seal_for, MAX_PLAINTEXT_BYTES,
    TAG_SIZE_BYTES,
};
use crate::block::{
    block_decrypt_error, block_decrypt_inverts, block_encrypt_error, is_block_decryption,
    is_block_encryption, Block, BlockView, BLOCK_SIZE,
};
use crate::error::EnCryptError;
use crate::marker::{
    add_marker, has_marker, is_marked, lemma_unmark_marked, marker, strip_marker, unmarked,
};

verus! {

/// The aggregate record: the identifier over the blocks' identifiers, the
/// metadata blob, the identifier of the first block, and the blocks in
/// order.
#[derive(Clone, Debug)]
pub struct Wrapper {
    pub cid: String,
    pub metadata: Vec<u8>,
    pub head_block: Option<String>,
    pub blocks: Vec<Block>,
}

/// The public handle; it owns exactly one wrapper.
#[derive(Clone, Debug)]
pub struct Pointer(pub Wrapper);

/// What a pointer holds, as mathematical values.
pub struct PointerView {
    pub cid: Seq<char>,
    pub metadata: Seq<u8>,
    pub head_block: Option<Seq<char>>,
    pub blocks: Seq<BlockView>,
}

impl View for Pointer {
    type V = PointerView;

    open spec fn view(&self) -> PointerView {
        PointerView {
            cid: self.0.cid@,
            metadata: self.0.metadata@,
            head_block: crate::block::opt_text(self.0.head_block),
            blocks: self.0.blocks@.map_values(|b: Block| b@),
        }
    }
}

/// The payloads of `blocks`, concatenated in order.
pub open spec fn payloads(blocks: Seq<BlockView>) -> Seq<u8>
    decreases blocks.len(),
{
    if blocks.len() == 0 {
        Seq::empty()
    } else {
        payloads(blocks.drop_last()) + blocks.last().data
    }
}

/// The UTF-8 texts of the identifiers of `blocks`, concatenated in order.
pub open spec fn identifier_bytes(blocks: Seq<BlockView>) -> Seq<u8>
    decreases blocks.len(),
{
    if blocks.len() == 0 {
        Seq::empty()
    } else {
        identifier_bytes(blocks.drop_last()) + encode_utf8(blocks.last().cid)
    }
}

/// The texts `ts`, each in UTF-8, concatenated in order.
pub open spec fn joined_texts(ts: Seq<Seq<char>>) -> Seq<u8>
    decreases ts.len(),
{
    if ts.len() == 0 {
        Seq::empty()
    } else {
        joined_texts(ts.drop_last()) + encode_utf8(ts.last())
    }
}

/// The identifiers of the chunks of `data` with blocks of `size` bytes.
pub open spec fn chunk_identifiers(data: Seq<u8>, size: nat) -> Seq<Seq<char>> {
    Seq::new(chunk_count(data.len(), size), |i: int| identifier_of(chunk(data, size, i))->Some_0)
}

/// Whether every chunk of `data` has an identifier, and so does the
/// concatenation of those identifiers: construction then succeeds.
pub open spec fn chunk_ids_ok(data: Seq<u8>, size: nat) -> bool {
    &&& forall|i: int|
        0 <= i < chunk_count(data.len(), size) ==> (#[trigger] identifier_of(
            chunk(data, size, i),
        )) is Some
    &&& identifier_of(joined_texts(chunk_identifiers(data, size))) is Some
}

proof fn lemma_identifier_bytes_joined(bs: Seq<BlockView>)
    ensures
        identifier_bytes(bs) == joined_texts(bs.map_values(|b: BlockView| b.cid)),
    decreases bs.len(),
{
    if bs.len() > 0 {
        lemma_identifier_bytes_joined(bs.drop_last());
        assert(bs.map_values(|b: BlockView| b.cid).drop_last() =~= bs.drop_last().map_values(
            |b: BlockView| b.cid,
        ));
    }
}

/// The number of chunks of at most `size` bytes that `len` bytes make.
pub open spec fn chunk_count(len: nat, size: nat) -> nat {
    if size == 0 {
        0
    } else {
        ((len + size - 1) / size as int) as nat
    }
}

/// The chunk at `index` of `data` cut into chunks of `size` bytes.
pub open spec fn chunk(data: Seq<u8>, size: nat, index: int) -> Seq<u8> {
    let start = index * size;
    let end = if start + size < data.len() {
        start + size
    } else {
        data.len() as int
    };
    data.subrange(start, end)
}

/// `p` is what construction makes of `data` with blocks of `size` bytes:
/// one plaintext block per chunk, in order, each addressed by its payload;
/// the aggregate identifier over the blocks' identifiers; the first block's
/// identifier as head; a one-byte zero metadata placeholder.
pub open spec fn is_construction(p: PointerView, data: Seq<u8>, size: nat) -> bool {
    let bs = p.blocks;
    &&& bs.len() == chunk_count(data.len(), size)
    &&& forall|i: int|
        0 <= i < bs.len() ==> {
            &&& (#[trigger] bs[i]).data == chunk(data, size, i)
            &&& identifier_of(bs[i].data) == Some(bs[i].cid)
            &&& bs[i].next is None
            &&& is_base32_lower(bs[i].cid)
            &&& has_nonce(bs[i].cid)
        }
    &&& payloads(bs) == data
    &&& identifier_of(identifier_bytes(bs)) == Some(p.cid)
    &&& is_base32_lower(p.cid)
    &&& has_nonce(p.cid)
    &&& p.head_block == if bs.len() == 0 {
        None
    } else {
        Some(bs[0].cid)
    }
    &&& p.metadata == seq![0u8]
}

proof fn lemma_ceil_div(n: int, s: int, c: int)
    requires
        s > 0,
        c >= 1,
        (c - 1) * s < n <= c * s,
    ensures
        (n + s - 1) / s == c,
{
    assert(c * s == (c - 1) * s + s) by (nonlinear_arith);
    lemma_fundamental_div_mod_converse(n + s - 1, s, c, n + s - 1 - c * s);
}

/// Appends `src` to `dst`.
pub(crate) fn append_bytes(dst: &mut Vec<u8>, src: &[u8])
    ensures
        final(dst)@ == old(dst)@ + src@,
{
    let mut i: usize = 0;
    while i < src.len()
        invariant
            i <= src@.len(),
            dst@ == old(dst)@ + src@.subrange(0, i as int),
        decreases src@.len() - i,
    {
        dst.push(src[i]);
        i = i + 1;
        assert(dst@ =~= old(dst)@ + src@.subrange(0, i as int));
    }
    assert(src@.subrange(0, i as int) =~= src@);
}

/// The error of the first block, in order, that cannot be encrypted.
pub open spec fn first_encrypt_error(bs: Seq<Block>) -> Option<EnCryptError>
    decreases bs.len(),
{
    if bs.len() == 0 {
        None
    } else {
        match block_encrypt_error(bs[0]) {
            Some(e) => Some(e),
            None => first_encrypt_error(bs.drop_first()),
        }
    }
}

/// The error of the first block, in order, that cannot be decrypted under
/// `key`.
pub open spec fn first_decrypt_error(bs: Seq<Block>, key: Seq<u8>) -> Option<EnCryptError>
    decreases bs.len(),
{
    if bs.len() == 0 {
        None
    } else {
        match block_decrypt_error(bs[0], key) {
            Some(e) => Some(e),
            None => first_decrypt_error(bs.drop_first(), key),
        }
    }
}

/// The error that encrypting `p` gives, if any: the pointer's state and
/// identifier, then the metadata, then each block in order.
pub open spec fn pointer_encrypt_error(p: Pointer) -> Option<EnCryptError> {
    if is_marked(p.0.cid@) {
        Some(EnCryptError::WrongState)
    } else if !has_nonce(p.0.cid@) {
        Some(EnCryptError::AddressingError)
    } else if p.0.metadata@.len() > MAX_PLAINTEXT_BYTES {
        Some(EnCryptError::InputTooLarge)
    } else {
        first_encrypt_error(p.0.blocks@)
    }
}

/// `e` is the encryption of `p` under `key`: every block encrypted in
/// order, the metadata sealed with the nonce of the aggregate identifier,
/// the aggregate identifier marked, the head kept.
pub open spec fn is_pointer_encryption(p: Pointer, key: Seq<u8>, e: Pointer) -> bool {
    &&& e.0.cid@ == p.0.cid@ + marker()
    &&& e.0.head_block == p.0.head_block
    &&& e.0.metadata@ == aes256gcm_seal(key, nonce_of(p.0.cid@), p.0.metadata@)
    &&& e.0.metadata@.len() == p.0.metadata@.len() + TAG_SIZE_BYTES
    &&& e.0.blocks@.len() == p.0.blocks@.len()
    &&& forall|i: int|
        0 <= i < p.0.blocks@.len() ==> #[trigger] is_block_encryption(
            p.0.blocks@[i],
            key,
            e.0.blocks@[i],
        )
}

/// The error that decrypting `e` under `key` gives, if any: the pointer's
/// state and identifier, then the metadata, then each block in order.
pub open spec fn pointer_decrypt_error(e: Pointer, key: Seq<u8>) -> Option<EnCryptError> {
    if !is_marked(e.0.cid@) {
        Some(EnCryptError::WrongState)
    } else if !has_nonce(unmarked(e.0.cid@)) {
        Some(EnCryptError::AddressingError)
    } else if open_result(key, nonce_of(unmarked(e.0.cid@)), e.0.metadata@) is None {
        Some(EnCryptError::AuthenticationFailure)
    } else {
        first_decrypt_error(e.0.blocks@, key)
    }
}

/// `d` is the decryption of `e` under `key`.
pub open spec fn is_pointer_decryption(e: Pointer, key: Seq<u8>, d: Pointer) -> bool {
    &&& d.0.cid@ == unmarked(e.0.cid@)
    &&& d.0.head_block == e.0.head_block
    &&& open_result(key, nonce_of(unmarked(e.0.cid@)), e.0.metadata@) == Some(d.0.metadata@)
    &&& d.0.blocks@.len() == e.0.blocks@.len()
    &&& forall|i: int|
        0 <= i < e.0.blocks@.len() ==> #[trigger] is_block_decryption(
            e.0.blocks@[i],
            key,
            d.0.blocks@[i],
        )
}

/// `r`, the result of decrypting `e` under `key`, gives back every pointer
/// whose encryption under `key` is `e`.
pub open spec fn pointer_decrypt_inverts(e: Pointer, key: Seq<u8>, r: Result<Pointer, EnCryptError>) -> bool {
    forall|q: Pointer|
        pointer_encrypt_error(q) is None && #[trigger] is_pointer_encryption(q, key, e) ==> r is Ok
            && r->Ok_0@ == q@
}

proof fn lemma_no_encrypt_error(bs: Seq<Block>)
    requires
        first_encrypt_error(bs) is None,
    ensures
        forall|i: int| 0 <= i < bs.len() ==> block_encrypt_error(#[trigger] bs[i]) is None,
    decreases bs.len(),
{
    if bs.len() > 0 {
        lemma_no_encrypt_error(bs.drop_first());
        assert forall|i: int| 0 <= i < bs.len() implies block_encrypt_error(#[trigger] bs[i]) is None by {
            if i > 0 {
                assert(bs[i] == bs.drop_first()[i - 1]);
            }
        }
    }
}

/// Moves the blocks of `v` into a vector in reverse order.
fn reversed(v: Vec<Block>) -> (r: Vec<Block>)
    ensures
        r@.len() == v@.len(),
        forall|j: int| 0 <= j < v@.len() ==> r@[j] == v@[v@.len() - 1 - j],
{
    let ghost orig = v@;
    let mut v = v;
    let mut r: Vec<Block> = Vec::new();
    while v.len() > 0
        invariant
            r@.len() <= orig.len(),
            v@ == orig.subrange(0, orig.len() - r@.len()),
            forall|j: int| 0 <= j < r@.len() ==> r@[j] == orig[orig.len() - 1 - j],
        decreases v@.len(),
    {
        let b = v.pop().unwrap();
        r.push(b);
        assert(v@ =~= orig.subrange(0, orig.len() - r@.len()));
    }
    r
}

impl Wrapper {
    /// Appends the payloads of the blocks, in order, to `buf` and returns
    /// their total length. Fails with `WrongState`, leaving `buf` as it
    /// was, where the identifier marks the wrapper as encrypted.
    pub fn read_to_end(&self, buf: &mut Vec<u8>) -> (r: Result<usize, EnCryptError>)
        ensures
            is_marked(self.cid@) ==> r == Err::<usize, EnCryptError>(EnCryptError::WrongState)
                && final(buf)@ == old(buf)@,
            !is_marked(self.cid@) ==> r is Ok && final(buf)@ == old(buf)@ + payloads(
                self.blocks@.map_values(|b: Block| b@),
            ) && r->Ok_0 == payloads(self.blocks@.map_values(|b: Block| b@)).len(),
    {
        if has_marker(self.cid.as_str()) {
            return Err(EnCryptError::WrongState);
        }
        let ghost vs = self.blocks@.map_values(|b: Block| b@);
        let start = buf.len();
        let mut i: usize = 0;
        while i < self.blocks.len()
            invariant
                i <= self.blocks@.len(),
                start == old(buf)@.len(),
                vs == self.blocks@.map_values(|b: Block| b@),
                buf@ == old(buf)@ + payloads(vs.subrange(0, i as int)),
            decreases self.blocks@.len() - i,
        {
            let _ = self.blocks[i].read_to_end(buf);
            proof {
                assert(vs.subrange(0, i + 1).drop_last() =~= vs.subrange(0, i as int));
            }
            i = i + 1;
            assert(buf@ =~= old(buf)@ + payloads(vs.subrange(0, i as int)));
        }
        assert(vs.subrange(0, i as int) =~= vs);
        Ok(buf.len() - start)
    }
}

impl Pointer {
    /// Splits `buf` into consecutive chunks of at most `block_size` bytes,
    /// makes one block of each, and binds them under the identifier of
    /// their identifiers. Fails only with `AddressingError`, where an
    /// identifier could not be computed.
    pub fn from_sized(buf: &[u8], block_size: usize) -> (r: Result<Pointer, EnCryptError>)
        requires
            block_size > 0,
        ensures
            r is Ok ==> is_construction(r->Ok_0@, buf@, block_size as nat),
            r is Err ==> r->Err_0 == EnCryptError::AddressingError,
            chunk_ids_ok(buf@, block_size as nat) ==> r is Ok,
    {
        let n = buf.len();
        let ghost s = block_size as int;
        let mut blocks: Vec<Block> = Vec::new();
        let mut ids: Vec<u8> = Vec::new();
        let mut head_block: Option<String> = None;
        let mut offset: usize = 0;
        proof {
            assert(0 * s == 0) by (nonlinear_arith);
        }
        while offset < n
            invariant
                n == buf@.len(),
                s == block_size > 0,
                offset <= n,
                offset < n ==> offset == blocks@.len() * s,
                offset == n ==> blocks@.len() == 0 || (blocks@.len() - 1) * s < n <= blocks@.len() * s,
                forall|i: int|
                    0 <= i < blocks@.len() ==> {
                        &&& (#[trigger] blocks@[i]).data@ == chunk(buf@, s as nat, i)
                        &&& identifier_of(blocks@[i].data@) == Some(blocks@[i].cid@)
                        &&& blocks@[i].next is None
                        &&& is_base32_lower(blocks@[i].cid@)
                        &&& has_nonce(blocks@[i].cid@)
                    },
                payloads(blocks@.map_values(|b: Block| b@)) == buf@.subrange(0, offset as int),
                ids@ == identifier_bytes(blocks@.map_values(|b: Block| b@)),
                crate::block::opt_text(head_block) == if blocks@.len() == 0 {
                    None
                } else {
                    Some(blocks@[0].cid@)
                },
            decreases n - offset,
        {
            let end: usize = if n - offset > block_size {
                offset + block_size
            } else {
                n
            };
            let piece = vstd::slice::slice_subrange(buf, offset, end);
            proof {
                let c = blocks@.len() as int;
                assert(piece@ == chunk(buf@, s as nat, c));
                if chunk_ids_ok(buf@, s as nat) {
                    assert(c < chunk_count(n as nat, s as nat)) by {
                        lemma_chunk_count_bounds(n as nat, s as nat);
                        assert(c * s < n);
                        assert(c < chunk_count(n as nat, s as nat)) by (nonlinear_arith)
                            requires
                                c * s < n,
                                s > 0,
                                n <= chunk_count(n as nat, s as nat) * s,
                        ;
                    }
                    assert(identifier_of(chunk(buf@, s as nat, c)) is Some);
                }
            }
            let mut block = Block::new_empty();
            block.write_limited(piece, block_size)?;
            append_bytes(&mut ids, block.cid.as_str().as_bytes());
            if blocks.len() == 0 {
                head_block = Some(block.cid.clone());
            }
            let ghost old_blocks = blocks@;
            let ghost c = blocks@.len() as int;
            blocks.push(block);
            proof {
                assert((c + 1) * s == c * s + s) by (nonlinear_arith);
                let vs = blocks@.map_values(|b: Block| b@);
                let old_vs = old_blocks.map_values(|b: Block| b@);
                assert(vs.drop_last() =~= old_vs);
                assert(blocks@[c].data@ == chunk(buf@, s as nat, c));
                assert forall|i: int| 0 <= i < c implies blocks@[i] == old_blocks[i] by {}
                assert(buf@.subrange(0, end as int) =~= buf@.subrange(0, offset as int)
                    + piece@);
            }
            offset = end;
        }
        proof {
            if blocks@.len() > 0 {
                lemma_ceil_div(n as int, s, blocks@.len() as int);
            } else {
                lemma_fundamental_div_mod_converse(s - 1, s, 0, s - 1);
            }
            assert(buf@.subrange(0, n as int) =~= buf@);
            let vs = blocks@.map_values(|b: Block| b@);
            lemma_identifier_bytes_joined(vs);
            if chunk_ids_ok(buf@, s as nat) {
                assert(vs.map_values(|b: BlockView| b.cid) =~= chunk_identifiers(buf@, s as nat));
            }
        }
        let cid = identify(ids.as_slice())?;
        let mut metadata: Vec<u8> = Vec::new();
        metadata.push(0u8);
        let p = Pointer(Wrapper { cid, metadata, head_block, blocks });
        proof {
            assert(p@.metadata =~= seq![0u8]);
            let vs = p@.blocks;
            assert forall|i: int| 0 <= i < vs.len() implies {
                &&& (#[trigger] vs[i]).data == chunk(buf@, block_size as nat, i)
                &&& identifier_of(vs[i].data) == Some(vs[i].cid)
                &&& vs[i].next is None
                &&& is_base32_lower(vs[i].cid)
                &&& has_nonce(vs[i].cid)
            } by {
                assert(vs[i] == p.0.blocks@[i]@);
            }
        }
        Ok(p)
    }

    /// `from_sized` with the default block size.
    pub fn from(buf: &[u8]) -> (r: Result<Pointer, EnCryptError>)
        ensures
            r is Ok ==> is_construction(r->Ok_0@, buf@, BLOCK_SIZE as nat),
            r is Err ==> r->Err_0 == EnCryptError::AddressingError,
            chunk_ids_ok(buf@, BLOCK_SIZE as nat) ==> r is Ok,
    {
        Pointer::from_sized(buf, BLOCK_SIZE)
    }

    /// Encrypts every block in order, seals the metadata with the nonce of
    /// the aggregate identifier, and marks the aggregate identifier as
    /// encrypted; the head is kept. Fails with the first error, in that
    /// order, and returns nothing partial.
    pub fn encrypt(self, key: &[u8; 32]) -> (r: Result<Pointer, EnCryptError>)
        ensures
            match pointer_encrypt_error(self) {
                Some(e) => r == Err::<Pointer, EnCryptError>(e),
                None => r is Ok && is_pointer_encryption(self, key@, r->Ok_0),
            },
    {
        let ghost old_p = self;
        let Pointer(w) = self;
        let Wrapper { cid, metadata, head_block, blocks } = w;
        if has_marker(cid.as_str()) {
            return Err(EnCryptError::WrongState);
        }
        let sealed = seal_for(cid.as_str(), key, metadata.as_slice())?;
        let ghost orig = blocks@;
        let ghost n = orig.len() as int;
        proof {
            assert(orig.subrange(0, n) =~= orig);
        }
        let mut pending = reversed(blocks);
        let mut done: Vec<Block> = Vec::new();
        while pending.len() > 0
            invariant
                n == orig.len(),
                orig == old_p.0.blocks@,
                old_p == self,
                pointer_encrypt_error(old_p) == first_encrypt_error(orig),
                pending@.len() + done@.len() == n,
                forall|j: int| 0 <= j < pending@.len() ==> pending@[j] == orig[n - 1 - j],
                forall|j: int|
                    0 <= j < done@.len() ==> #[trigger] is_block_encryption(
                        orig[j],
                        key@,
                        done@[j],
                    ),
                first_encrypt_error(orig) == first_encrypt_error(
                    orig.subrange(done@.len() as int, n),
                ),
            decreases pending@.len(),
        {
            let b = pending.pop().unwrap();
            let ghost i = done@.len() as int;
            proof {
                let rest = orig.subrange(i, n);
                assert(rest[0] == orig[i]);
                assert(rest.drop_first() =~= orig.subrange(i + 1, n));
            }
            assert(b == orig[i]);
            match b.encrypt(key) {
                Ok(e) => {
                    done.push(e);
                },
                Err(err) => {
                    proof {
                        let rest = orig.subrange(i, n);
                        assert(block_encrypt_error(rest[0]) == Some(err));
                        assert(first_encrypt_error(rest) == Some(err));
                    }
                    return Err(err);
                },
            }
        }
        let marked = add_marker(cid.as_str());
        Ok(Pointer(Wrapper { cid: marked, metadata: sealed, head_block, blocks: done }))
    }

    /// Opens the metadata, then every block in order, under `key`, and
    /// removes the encrypted marker from the aggregate identifier; the head
    /// is kept. Fails with the first error, in that order, and returns
    /// nothing partial. Decrypting what `encrypt` gave under the same key
    /// gives back the pointer it came from.
    pub fn decrypt(self, key: &[u8; 32]) -> (r: Result<Pointer, EnCryptError>)
        ensures
            match pointer_decrypt_error(self, key@) {
                Some(e) => r == Err::<Pointer, EnCryptError>(e),
                None => r is Ok && is_pointer_decryption(self, key@, r->Ok_0),
            },
            pointer_decrypt_inverts(self, key@, r),
    {
        let ghost old_p = self;
        let Pointer(w) = self;
        let Wrapper { cid, metadata, head_block, blocks } = w;
        if !has_marker(cid.as_str()) {
            proof {
                assert forall|q: Pointer|
                    pointer_encrypt_error(q) is None && #[trigger] is_pointer_encryption(
                        q,
                        key@,
                        old_p,
                    ) implies false by {
                    lemma_unmark_marked(q.0.cid@);
                }
            }
            return Err(EnCryptError::WrongState);
        }
        let plain = strip_marker(cid.as_str());
        proof {
            assert forall|q: Pointer|
                pointer_encrypt_error(q) is None && #[trigger] is_pointer_encryption(
                    q,
                    key@,
                    old_p,
                ) implies plain@ == q.0.cid@ by {
                lemma_unmark_marked(q.0.cid@);
            }
        }
        let opened = match open_for(plain.as_str(), key, metadata.as_slice()) {
            Ok(m) => m,
            Err(err) => {
                return Err(err);
            },
        };
        let ghost orig = blocks@;
        let ghost n = orig.len() as int;
        proof {
            assert(orig.subrange(0, n) =~= orig);
        }
        let mut pending = reversed(blocks);
        let mut done: Vec<Block> = Vec::new();
        while pending.len() > 0
            invariant
                n == orig.len(),
                orig == old_p.0.blocks@,
                old_p == self,
                pointer_decrypt_error(old_p, key@) == first_decrypt_error(orig, key@),
                forall|q: Pointer|
                    pointer_encrypt_error(q) is None && #[trigger] is_pointer_encryption(
                        q,
                        key@,
                        old_p,
                    ) ==> opened@ == q.0.metadata@ && plain@ == q.0.cid@,
                pending@.len() + done@.len() == n,
                forall|j: int| 0 <= j < pending@.len() ==> pending@[j] == orig[n - 1 - j],
                forall|j: int|
                    0 <= j < done@.len() ==> #[trigger] is_block_decryption(
                        orig[j],
                        key@,
                        done@[j],
                    ) && block_decrypt_inverts(orig[j], key@, Ok(done@[j])),
                first_decrypt_error(orig, key@) == first_decrypt_error(
                    orig.subrange(done@.len() as int, n),
                    key@,
                ),
            decreases pending@.len(),
        {
            let b = pending.pop().unwrap();
            let ghost i = done@.len() as int;
            proof {
                let rest = orig.subrange(i, n);
                assert(rest[0] == orig[i]);
                assert(rest.drop_first() =~= orig.subrange(i + 1, n));
            }
            assert(b == orig[i]);
            let res = b.decrypt(key);
            match res {
                Ok(d) => {
                    let ghost dd = d;
                    assert(res == Ok::<Block, EnCryptError>(dd));
                    done.push(d);
                    assert(done@[i] == dd);
                    assert(is_block_decryption(orig[i], key@, done@[i]));
                    assert(block_decrypt_inverts(orig[i], key@, Ok(done@[i])));
                },
                Err(err) => {
                    proof {
                        let rest = orig.subrange(i, n);
                        assert(block_decrypt_error(rest[0], key@) == Some(err));
                        assert(first_decrypt_error(rest, key@) == Some(err));
                        assert forall|q: Pointer|
                            pointer_encrypt_error(q) is None && #[trigger] is_pointer_encryption(
                                q,
                                key@,
                                old_p,
                            ) implies false by {
                            lemma_no_encrypt_error(q.0.blocks@);
                            assert(is_block_encryption(q.0.blocks@[i], key@, orig[i]));
                        }
                    }
                    return Err(err);
                },
            }
        }
        let r = Pointer(Wrapper { cid: plain, metadata: opened, head_block, blocks: done });
        proof {
            assert forall|q: Pointer|
                pointer_encrypt_error(q) is None && #[trigger] is_pointer_encryption(
                    q,
                    key@,
                    old_p,
                ) implies r@ == q@ by {
                lemma_no_encrypt_error(q.0.blocks@);
                assert forall|j: int| 0 <= j < n implies r@.blocks[j] == q@.blocks[j] by {
                    assert(is_block_encryption(q.0.blocks@[j], key@, orig[j]));
                    assert(is_block_decryption(orig[j], key@, r.0.blocks@[j]));
                    assert(r.0.blocks@[j]@ == q.0.blocks@[j]@);
                }
                assert(r@.blocks =~= q@.blocks);
            }
        }
        Ok(r)
    }

    /// Appends the payloads of the blocks, in order, to `buf`; see
    /// `Wrapper::read_to_end`.
    pub fn read_to_end(&self, buf: &mut Vec<u8>) -> (r: Result<usize, EnCryptError>)
        ensures
            is_marked(self@.cid) ==> r == Err::<usize, EnCryptError>(EnCryptError::WrongState)
                && final(buf)@ == old(buf)@,
            !is_marked(self@.cid) ==> r is Ok && final(buf)@ == old(buf)@ + payloads(
                self@.blocks,
            ) && r->Ok_0 == payloads(self@.blocks).len(),
    {
        self.0.read_to_end(buf)
    }

    /// The metadata blob.
    pub fn metadata(&self) -> (r: &[u8])
        ensures
            r@ == self@.metadata,
    {
        self.0.metadata.as_slice()
    }

    /// The aggregate identifier.
    pub fn cid(&self) -> (r: &str)
        ensures
            r@ == self@.cid,
    {
        self.0.cid.as_str()
    }

    /// The number of blocks.
    pub fn blocks_len(&self) -> (r: usize)
        ensures
            r == self@.blocks.len(),
    {
        self.0.blocks.len()
    }
}

proof fn lemma_chunk_count_bounds(len: nat, size: nat)
    requires
        size > 0,
    ensures
        len == 0 ==> chunk_count(len, size) == 0,
        len > 0 ==> chunk_count(len, size) >= 1,
        len > 0 ==> (chunk_count(len, size) - 1) * size < len <= chunk_count(len, size) * size,
{
    let n = chunk_count(len, size) as int;
    let x = len + size - 1;
    vstd::arithmetic::div_mod::lemma_fundamental_div_mod(x, size as int);
    let r = x % (size as int);
    assert(x == size * n + r);
    assert(0 <= r < size);
    assert(n * size == size * n) by (nonlinear_arith);
    assert((n - 1) * size == n * size - size) by (nonlinear_arith);
    if len == 0 {
        assert(n == 0) by (nonlinear_arith)
            requires
                x == size * n + r,
                0 <= r < size,
                x == size - 1,
                size > 0,
        ;
    } else {
        assert(n >= 1) by (nonlinear_arith)
            requires
                x == size * n + r,
                0 <= r < size,
                x >= size,
        ;
    }
}

proof fn lemma_all_blocks_encryptable(bs: Seq<Block>)
    requires
        forall|i: int| 0 <= i < bs.len() ==> block_encrypt_error(#[trigger] bs[i]) is None,
    ensures
        first_encrypt_error(bs) is None,
    decreases bs.len(),
{
    if bs.len() > 0 {
        assert forall|i: int| 0 <= i < bs.drop_first().len() implies block_encrypt_error(
            #[trigger] bs.drop_first()[i],
        ) is None by {
            assert(bs.drop_first()[i] == bs[i + 1]);
        }
        lemma_all_blocks_encryptable(bs.drop_first());
    }
}

pub proof fn lemma_base32_unmarked(text: Seq<char>)
    requires
        is_base32_lower(text),
    ensures
        !is_marked(text),
{
    if is_marked(text) {
        let k = text.len() - marker().len();
        assert(text.subrange(k, text.len() as int)[0] == '/');
        assert(text[k] == '/');
    }
}

/// Chunking: constructing a pointer from `L` bytes with block size `S`
/// makes ceil(L / S) blocks; every block but the last holds exactly `S`
/// bytes, and the last holds `L mod S` bytes, or `S` where `S` divides `L`.
pub proof fn lemma_chunk_lengths(p: PointerView, data: Seq<u8>, size: nat)
    requires
        size > 0,
        is_construction(p, data, size),
    ensures
        p.blocks.len() == (data.len() + size - 1) / (size as int),
        forall|i: int| 0 <= i < p.blocks.len() - 1 ==> (#[trigger] p.blocks[i]).data.len() == size,
        p.blocks.len() > 0 ==> p.blocks.last().data.len() == if data.len() % size == 0 {
            size
        } else {
            data.len() % size
        },
{
    let len = data.len();
    let n = p.blocks.len() as int;
    lemma_chunk_count_bounds(len, size);
    assert forall|i: int| 0 <= i < n - 1 implies (#[trigger] p.blocks[i]).data.len() == size by {
        assert((i + 1) * size <= (n - 1) * size) by (nonlinear_arith)
            requires
                i + 1 <= n - 1,
                size > 0,
        ;
        assert((i + 1) * size == i * size + size) by (nonlinear_arith);
        assert(0 <= i * size) by (nonlinear_arith)
            requires
                i >= 0,
        ;
    }
    if n > 0 {
        let start = (n - 1) * size;
        assert(n * size == (n - 1) * size + size) by (nonlinear_arith);
        assert(0 <= (n - 1) * size) by (nonlinear_arith)
            requires
                n >= 1,
        ;
        assert(p.blocks.last() == p.blocks[n - 1]);
        if start + size < len {
        } else if len == n * size {
            vstd::arithmetic::div_mod::lemma_fundamental_div_mod_converse(
                len as int,
                size as int,
                n,
                0,
            );
        } else {
            vstd::arithmetic::div_mod::lemma_fundamental_div_mod_converse(
                len as int,
                size as int,
                n - 1,
                len - start,
            );
        }
    }
}

/// A constructed pointer encrypts without error under any key, for any
/// block size the cipher accepts.
pub proof fn lemma_construction_encryptable(p: Pointer, data: Seq<u8>, size: nat)
    requires
        0 < size <= MAX_PLAINTEXT_BYTES,
        is_construction(p@, data, size),
    ensures
        pointer_encrypt_error(p) is None,
{
    let bs = p.0.blocks@;
    lemma_chunk_lengths(p@, data, size);
    lemma_base32_unmarked(p.0.cid@);
    assert forall|i: int| 0 <= i < bs.len() implies block_encrypt_error(#[trigger] bs[i]) is None by {
        assert(p@.blocks[i] == bs[i]@);
        lemma_base32_unmarked(bs[i].cid@);
        if i < bs.len() - 1 {
            assert(bs[i].data@.len() == size);
        } else {
            assert(p@.blocks.last() == p@.blocks[i]);
            assert(data.len() % size < size) by {
                vstd::arithmetic::div_mod::lemma_mod_bound(data.len() as int, size as int);
            }
        }
    }
    lemma_all_blocks_encryptable(bs);
    assert(p.0.metadata@.len() == 1);
}

/// Round trip: the pointer constructed from `data` (with any block size the
/// cipher accepts) encrypts without error under any key; and whatever
/// decrypting its encryption under the same key returns is that pointer
/// again, in plaintext state, whose payloads read back as `data`.
pub proof fn lemma_round_trip(
    data: Seq<u8>,
    size: nat,
    key: Seq<u8>,
    p: Pointer,
    e: Pointer,
    d: Result<Pointer, EnCryptError>,
)
    requires
        0 < size <= MAX_PLAINTEXT_BYTES,
        is_construction(p@, data, size),
        is_pointer_encryption(p, key, e),
        pointer_decrypt_inverts(e, key, d),
    ensures
        pointer_encrypt_error(p) is None,
        d is Ok,
        d->Ok_0@ == p@,
        !is_marked(d->Ok_0@.cid),
        payloads(d->Ok_0@.blocks) == data,
{
    lemma_construction_encryptable(p, data, size);
}

} // verus!
