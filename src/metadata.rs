//! Metadata: a content-addressed record of a searchable tag set, sealed
//! and opened with the same identifier-derived nonce as blocks.
use vstd::prelude::*;
use vstd::string::StrSliceExecFns;

use crate::address::{identifier_of, identify};
use crate::aead::{
    aes256gcm_seal, has_nonce, nonce_of, open_for, open_result, seal_for, MAX_PLAINTEXT_BYTES,
    TAG_SIZE_BYTES,
};
use crate::error::EnCryptError;
use crate::marker::{
    add_marker, has_marker, is_marked, lemma_unmark_marked, marker, strip_marker, unmarked,
};
use crate::pointer::append_bytes;

verus! {

/// Runs a query against a value: whether the value matches it.
pub trait Match {
    /// The tags a query is held against, or `None` where they cannot be
    /// read.
    spec fn stored_tags(&self) -> Option<Seq<Seq<char>>>;

    /// Whether `query` is exactly one of the stored tags; `DecodeError`
    /// where the tags cannot be read.
    fn query(&self, query: String) -> (r: Result<bool, EnCryptError>)
        ensures
            match self.stored_tags() {
                Some(tags) => r == Ok::<bool, EnCryptError>(tags.contains(query@)),
                None => r == Err::<bool, EnCryptError>(EnCryptError::DecodeError),
            },
    ;
}

/// A set of tags.
#[derive(Debug)]
pub struct Tags {
    pub values: Vec<String>,
}

/// The identifier of the encoded tags, and the encoded tags.
#[derive(Clone, Debug)]
pub struct Metadata {
    pub cid: String,
    pub encoded_tags: Vec<u8>,
}

/// The compact JSON array of the strings `items`.
pub uninterp spec fn json_string_array(items: Seq<Seq<char>>) -> Seq<u8>;

/// The strings of the JSON array `bytes`, or `None` where `bytes` is not a
/// JSON array of strings.
pub uninterp spec fn json_string_array_parse(bytes: Seq<u8>) -> Option<Seq<Seq<char>>>;

#[verifier::external_type_specification]
#[verifier::external_body]
pub struct ExJsonError(serde_json::Error);

/// Relies on `serde_json::to_vec` over a vector of strings: the compact
/// JSON array, which serde_json reads back as the same strings. It fails
/// only where a `Serialize` impl fails or a map has non-string keys, and a
/// vector of strings has neither.
#[verifier::external_body]
fn json_encode_strings(items: &Vec<String>) -> (r: Result<Vec<u8>, serde_json::Error>)
    ensures
        r is Ok,
        r->Ok_0@ == json_string_array(items.deep_view()),
        json_string_array_parse(r->Ok_0@) == Some(items.deep_view()),
{
    serde_json::to_vec(items)
}

/// Relies on `serde_json::from_slice` into a vector of strings: the result
/// depends on the bytes alone.
#[verifier::external_body]
fn json_decode_strings(bytes: &[u8]) -> (r: Result<Vec<String>, serde_json::Error>)
    ensures
        match json_string_array_parse(bytes@) {
            Some(items) => r is Ok && r->Ok_0.deep_view() == items,
            None => r is Err,
        },
{
    serde_json::from_slice(bytes)
}

/// Lexicographic order of texts by code point.
pub open spec fn text_lt(a: Seq<char>, b: Seq<char>) -> bool
    decreases a.len(),
{
    if a.len() == 0 {
        b.len() > 0
    } else if b.len() == 0 {
        false
    } else if a[0] != b[0] {
        a[0] < b[0]
    } else {
        text_lt(a.drop_first(), b.drop_first())
    }
}

proof fn lemma_text_lt_irreflexive(a: Seq<char>)
    ensures
        !text_lt(a, a),
    decreases a.len(),
{
    if a.len() > 0 {
        lemma_text_lt_irreflexive(a.drop_first());
    }
}

proof fn lemma_text_lt_transitive(a: Seq<char>, b: Seq<char>, c: Seq<char>)
    requires
        text_lt(a, b),
        text_lt(b, c),
    ensures
        text_lt(a, c),
    decreases a.len(),
{
    if a.len() > 0 && b.len() > 0 && c.len() > 0 && a[0] == b[0] && b[0] == c[0] {
        lemma_text_lt_transitive(a.drop_first(), b.drop_first(), c.drop_first());
    }
}

proof fn lemma_text_lt_total(a: Seq<char>, b: Seq<char>)
    requires
        a != b,
    ensures
        text_lt(a, b) || text_lt(b, a),
    decreases a.len(),
{
    if a.len() > 0 && b.len() > 0 && a[0] == b[0] {
        if a.drop_first() == b.drop_first() {
            assert(a.drop_first().len() == b.drop_first().len());
            assert(a.len() == b.len());
            assert(a =~= b) by {
                assert forall|i: int| 0 <= i < a.len() implies a[i] == b[i] by {
                    if i > 0 {
                        assert(a[i] == a.drop_first()[i - 1]);
                        assert(b[i] == b.drop_first()[i - 1]);
                    }
                }
            }
        } else {
            lemma_text_lt_total(a.drop_first(), b.drop_first());
        }
    } else if a.len() == 0 && b.len() == 0 {
        assert(a =~= b);
    }
}

/// `s` with the tag `x` put in its place: before the first tag above it,
/// and not at all where `s` holds it already.
pub open spec fn insert_tag(s: Seq<Seq<char>>, x: Seq<char>) -> Seq<Seq<char>>
    decreases s.len(),
{
    if s.len() == 0 {
        seq![x]
    } else if s[0] == x {
        s
    } else if text_lt(x, s[0]) {
        seq![x] + s
    } else {
        seq![s[0]] + insert_tag(s.drop_first(), x)
    }
}

/// The canonical form of a tag list: its tags in ascending order, each
/// once.
pub open spec fn canonical_tags(values: Seq<Seq<char>>) -> Seq<Seq<char>>
    decreases values.len(),
{
    if values.len() == 0 {
        Seq::empty()
    } else {
        insert_tag(canonical_tags(values.drop_last()), values.last())
    }
}

/// Whether the texts are in strictly ascending order.
pub open spec fn strictly_ascending(s: Seq<Seq<char>>) -> bool {
    forall|i: int, j: int| 0 <= i < j < s.len() ==> text_lt(#[trigger] s[i], #[trigger] s[j])
}

proof fn lemma_insert_tag(s: Seq<Seq<char>>, x: Seq<char>)
    requires
        strictly_ascending(s),
    ensures
        strictly_ascending(insert_tag(s, x)),
        forall|t: Seq<char>| #[trigger] insert_tag(s, x).contains(t) <==> (s.contains(t) || t == x),
    decreases s.len(),
{
    let r = insert_tag(s, x);
    if s.len() == 0 {
        assert forall|t: Seq<char>| #[trigger] r.contains(t) <==> (s.contains(t) || t == x) by {
            if t == x {
                assert(r[0] == x);
            }
        }
    } else if s[0] == x {
    } else if text_lt(x, s[0]) {
        assert forall|i: int, j: int| 0 <= i < j < r.len() implies text_lt(
            #[trigger] r[i],
            #[trigger] r[j],
        ) by {
            if i == 0 {
                if j > 1 {
                    assert(text_lt(s[0], s[j - 1]));
                    lemma_text_lt_transitive(x, s[0], s[j - 1]);
                }
            } else {
                assert(text_lt(s[i - 1], s[j - 1]));
            }
        }
        assert forall|t: Seq<char>| #[trigger] r.contains(t) <==> (s.contains(t) || t == x) by {
            if s.contains(t) {
                let k = choose|k: int| 0 <= k < s.len() && s[k] == t;
                assert(r[k + 1] == t);
            }
            if t == x {
                assert(r[0] == x);
            }
            if r.contains(t) {
                let k = choose|k: int| 0 <= k < r.len() && r[k] == t;
                if k > 0 {
                    assert(s[k - 1] == t);
                }
            }
        }
    } else {
        let rest = s.drop_first();
        assert(strictly_ascending(rest)) by {
            assert forall|i: int, j: int| 0 <= i < j < rest.len() implies text_lt(
                #[trigger] rest[i],
                #[trigger] rest[j],
            ) by {
                assert(text_lt(s[i + 1], s[j + 1]));
            }
        }
        lemma_insert_tag(rest, x);
        let ins = insert_tag(rest, x);
        lemma_text_lt_total(x, s[0]);
        assert forall|i: int, j: int| 0 <= i < j < r.len() implies text_lt(
            #[trigger] r[i],
            #[trigger] r[j],
        ) by {
            if i == 0 {
                assert(r[j] == ins[j - 1]);
                assert(ins.contains(ins[j - 1]));
                if ins[j - 1] != x {
                    let k = choose|k: int| 0 <= k < rest.len() && rest[k] == ins[j - 1];
                    assert(text_lt(s[0], s[k + 1]));
                }
            } else {
                assert(r[i] == ins[i - 1]);
                assert(r[j] == ins[j - 1]);
            }
        }
        assert forall|t: Seq<char>| #[trigger] r.contains(t) <==> (s.contains(t) || t == x) by {
            if s.contains(t) {
                let k = choose|k: int| 0 <= k < s.len() && s[k] == t;
                if k == 0 {
                    assert(r[0] == t);
                } else {
                    assert(rest[k - 1] == t);
                    assert(ins.contains(t));
                    let m = choose|m: int| 0 <= m < ins.len() && ins[m] == t;
                    assert(r[m + 1] == t);
                }
            }
            if t == x {
                assert(ins.contains(x));
                let m = choose|m: int| 0 <= m < ins.len() && ins[m] == x;
                assert(r[m + 1] == x);
            }
            if r.contains(t) {
                let k = choose|k: int| 0 <= k < r.len() && r[k] == t;
                if k > 0 {
                    assert(ins[k - 1] == t);
                    assert(ins.contains(t));
                    if t != x {
                        let m = choose|m: int| 0 <= m < rest.len() && rest[m] == t;
                        assert(s[m + 1] == t);
                    }
                } else {
                    assert(s[0] == t);
                }
            }
        }
    }
}

/// The canonical form of a tag list is strictly ascending, so holds no tag
/// twice, and holds exactly the tags of the list.
pub proof fn lemma_canonical_tags(values: Seq<Seq<char>>)
    ensures
        strictly_ascending(canonical_tags(values)),
        forall|i: int, j: int|
            0 <= i < j < canonical_tags(values).len() ==> #[trigger] canonical_tags(values)[i]
                != #[trigger] canonical_tags(values)[j],
        forall|t: Seq<char>| #[trigger] canonical_tags(values).contains(t) <==> values.contains(t),
    decreases values.len(),
{
    let c = canonical_tags(values);
    if values.len() > 0 {
        let init = values.drop_last();
        lemma_canonical_tags(init);
        lemma_insert_tag(canonical_tags(init), values.last());
        assert forall|t: Seq<char>| #[trigger] c.contains(t) <==> values.contains(t) by {
            if init.contains(t) {
                let k = choose|k: int| 0 <= k < init.len() && init[k] == t;
                assert(values[k] == t);
            }
            if values.contains(t) {
                let k = choose|k: int| 0 <= k < values.len() && values[k] == t;
                if k < values.len() - 1 {
                    assert(init[k] == t);
                }
            }
        }
    }
    assert forall|i: int, j: int| 0 <= i < j < c.len() implies #[trigger] c[i] != #[trigger] c[j] by {
        assert(text_lt(c[i], c[j]));
        lemma_text_lt_irreflexive(c[i]);
    }
}

/// Compares two texts by code point: negative, zero or positive as `a` is
/// below, equal to or above `b`.
fn compare_text(a: &str, b: &str) -> (r: i8)
    ensures
        r == 0 <==> a@ == b@,
        r < 0 <==> text_lt(a@, b@),
        r > 0 <==> text_lt(b@, a@),
{
    let na = a.unicode_len();
    let nb = b.unicode_len();
    let mut i: usize = 0;
    assert(a@.subrange(0, na as int) =~= a@);
    assert(b@.subrange(0, nb as int) =~= b@);
    assert(a@.subrange(0, 0) =~= b@.subrange(0, 0));
    while i < na && i < nb
        invariant
            na == a@.len(),
            nb == b@.len(),
            i <= na,
            i <= nb,
            a@.subrange(0, i as int) == b@.subrange(0, i as int),
            text_lt(a@, b@) == text_lt(a@.subrange(i as int, na as int), b@.subrange(i as int, nb as int)),
            text_lt(b@, a@) == text_lt(b@.subrange(i as int, nb as int), a@.subrange(i as int, na as int)),
        decreases na - i,
    {
        let ca = a.get_char(i);
        let cb = b.get_char(i);
        let ghost sa = a@.subrange(i as int, na as int);
        let ghost sb = b@.subrange(i as int, nb as int);
        assert(sa[0] == ca && sb[0] == cb);
        if ca != cb {
            assert(a@[i as int] != b@[i as int]);
            if ca < cb {
                return -1;
            } else {
                return 1;
            }
        }
        assert(sa.drop_first() =~= a@.subrange(i + 1, na as int));
        assert(sb.drop_first() =~= b@.subrange(i + 1, nb as int));
        assert(a@.subrange(0, i + 1) =~= a@.subrange(0, i as int).push(ca));
        assert(b@.subrange(0, i + 1) =~= b@.subrange(0, i as int).push(cb));
        i = i + 1;
    }
    if na == nb {
        assert(a@ =~= a@.subrange(0, i as int));
        assert(b@ =~= b@.subrange(0, i as int));
        proof {
            lemma_text_lt_irreflexive(a@);
        }
        0
    } else if i == na {
        assert(a@.subrange(i as int, na as int).len() == 0);
        -1
    } else {
        assert(b@.subrange(i as int, nb as int).len() == 0);
        1
    }
}

/// Puts `x` in its place in `sorted`, as `insert_tag` does.
fn insert_tag_in(sorted: &mut Vec<String>, x: String)
    ensures
        final(sorted).deep_view() == insert_tag(old(sorted).deep_view(), x@),
{
    let ghost s0 = old(sorted).deep_view();
    let n = sorted.len();
    let mut k: usize = 0;
    assert(s0.subrange(0, n as int) =~= s0);
    assert(s0.subrange(0, 0) + insert_tag(s0, x@) =~= insert_tag(s0, x@));
    while k < n
        invariant
            n == sorted@.len(),
            s0 == old(sorted).deep_view(),
            sorted.deep_view() == s0,
            s0.len() == n,
            k <= n,
            insert_tag(s0, x@) == s0.subrange(0, k as int) + insert_tag(s0.subrange(k as int, n as int), x@),
        decreases n - k,
    {
        let c = compare_text(sorted[k].as_str(), x.as_str());
        let ghost sub = s0.subrange(k as int, n as int);
        assert(sub[0] == s0[k as int]);
        assert(s0[k as int] == sorted@[k as int]@);
        if c == 0 {
            assert(insert_tag(sub, x@) == sub);
            assert(s0.subrange(0, k as int) + sub =~= s0);
            return;
        }
        if c > 0 {
            assert(insert_tag(sub, x@) == seq![x@] + sub);
            sorted.insert(k, x);
            proof {
                assert(sorted.deep_view() =~= s0.subrange(0, k as int) + (seq![x@] + sub));
            }
            return;
        }
        assert(sub.drop_first() =~= s0.subrange(k + 1, n as int));
        assert(s0.subrange(0, k as int) + seq![sub[0]] =~= s0.subrange(0, k + 1));
        assert(insert_tag(s0, x@) =~= s0.subrange(0, k + 1) + insert_tag(
            s0.subrange(k + 1, n as int),
            x@,
        ));
        k = k + 1;
    }
    sorted.push(x);
    proof {
        assert(s0.subrange(n as int, n as int) =~= Seq::<Seq<char>>::empty());
        assert(sorted.deep_view() =~= s0.subrange(0, n as int) + seq![x@]);
        assert(s0.subrange(0, n as int) =~= s0);
    }
}

/// The canonical form of `values`: ascending, each tag once.
fn canonical_tag_list(values: &Vec<String>) -> (r: Vec<String>)
    ensures
        r.deep_view() == canonical_tags(values.deep_view()),
{
    let ghost vs = values.deep_view();
    let mut sorted: Vec<String> = Vec::new();
    let mut i: usize = 0;
    assert(sorted.deep_view() =~= canonical_tags(vs.subrange(0, 0)));
    while i < values.len()
        invariant
            vs == values.deep_view(),
            i <= values@.len(),
            sorted.deep_view() == canonical_tags(vs.subrange(0, i as int)),
        decreases values@.len() - i,
    {
        let x = values[i].clone();
        insert_tag_in(&mut sorted, x);
        assert(vs.subrange(0, i + 1).drop_last() =~= vs.subrange(0, i as int));
        i = i + 1;
    }
    assert(vs.subrange(0, i as int) =~= vs);
    sorted
}

/// The bytes `{"values":` that open an encoded tag set.
pub open spec fn tags_prefix() -> Seq<u8> {
    seq![123u8, 34u8, 118u8, 97u8, 108u8, 117u8, 101u8, 115u8, 34u8, 58u8]
}

/// The byte `}` that closes an encoded tag set.
pub open spec fn tags_suffix() -> u8 {
    125u8
}

/// The canonical encoding of a tag set: the JSON object whose one field
/// `values` is the array of tags.
pub open spec fn encode_tags(values: Seq<Seq<char>>) -> Seq<u8> {
    tags_prefix() + json_string_array(values) + seq![tags_suffix()]
}

/// Whether `bytes` has the frame of an encoded tag set.
pub open spec fn has_tags_frame(bytes: Seq<u8>) -> bool {
    &&& bytes.len() >= tags_prefix().len() + 1
    &&& bytes.subrange(0, tags_prefix().len() as int) == tags_prefix()
    &&& bytes.last() == tags_suffix()
}

/// The tags of an encoded tag set, or `None` where `bytes` is not one.
pub open spec fn decode_tags(bytes: Seq<u8>) -> Option<Seq<Seq<char>>> {
    if has_tags_frame(bytes) {
        json_string_array_parse(bytes.subrange(tags_prefix().len() as int, bytes.len() - 1))
    } else {
        None
    }
}

/// The array inside the frame of an encoded tag set.
fn unframe_tags(bytes: &[u8]) -> (r: Option<&[u8]>)
    ensures
        has_tags_frame(bytes@) ==> r is Some && r->Some_0@ == bytes@.subrange(
            tags_prefix().len() as int,
            bytes@.len() - 1,
        ),
        !has_tags_frame(bytes@) ==> r is None,
{
    let prefix: Vec<u8> = vec![123u8, 34u8, 118u8, 97u8, 108u8, 117u8, 101u8, 115u8, 34u8, 58u8];
    assert(prefix@ =~= tags_prefix());
    let n = bytes.len();
    if n < prefix.len() + 1 || bytes[n - 1] != 125u8 {
        return None;
    }
    let mut i: usize = 0;
    while i < prefix.len()
        invariant
            prefix@ == tags_prefix(),
            n == bytes@.len(),
            n >= prefix@.len() + 1,
            i <= prefix@.len(),
            forall|j: int| 0 <= j < i ==> bytes@[j] == prefix@[j],
        decreases prefix@.len() - i,
    {
        if bytes[i] != prefix[i] {
            assert(bytes@.subrange(0, prefix@.len() as int)[i as int] != tags_prefix()[i as int]);
            return None;
        }
        i = i + 1;
    }
    assert(bytes@.subrange(0, prefix@.len() as int) =~= tags_prefix());
    Some(vstd::slice::slice_subrange(bytes, prefix.len(), n - 1))
}

/// Whether some tag equals `query`.
fn contains_tag(tags: &Vec<String>, query: &String) -> (r: bool)
    ensures
        r == tags.deep_view().contains(query@),
{
    let ghost vs = tags.deep_view();
    let mut i: usize = 0;
    while i < tags.len()
        invariant
            vs == tags.deep_view(),
            i <= tags@.len(),
            forall|j: int| 0 <= j < i ==> vs[j] != query@,
        decreases tags@.len() - i,
    {
        if tags[i] == *query {
            assert(vs[i as int] == query@);
            return true;
        }
        i = i + 1;
    }
    proof {
        if vs.contains(query@) {
            let k = choose|k: int| 0 <= k < vs.len() && vs[k] == query@;
            assert(vs[k] == query@);
        }
    }
    false
}

impl Match for Metadata {
    open spec fn stored_tags(&self) -> Option<Seq<Seq<char>>> {
        decode_tags(self.encoded_tags@)
    }

    /// Reads the tags only in the canonical form that `new` writes: the
    /// compact frame `{"values":` ... `}` around a JSON array of strings.
    /// Any other JSON form of a tag set gives `DecodeError`.
    fn query(&self, query: String) -> (r: Result<bool, EnCryptError>) {
        let inner = match unframe_tags(self.encoded_tags.as_slice()) {
            Some(s) => s,
            None => {
                return Err(EnCryptError::DecodeError);
            },
        };
        match json_decode_strings(inner) {
            Ok(tags) => Ok(contains_tag(&tags, &query)),
            Err(_) => Err(EnCryptError::DecodeError),
        }
    }
}

/// The error that encrypting `m` gives, if any.
pub open spec fn metadata_encrypt_error(m: Metadata) -> Option<EnCryptError> {
    if is_marked(m.cid@) {
        Some(EnCryptError::WrongState)
    } else if !has_nonce(m.cid@) {
        Some(EnCryptError::AddressingError)
    } else if m.encoded_tags@.len() > MAX_PLAINTEXT_BYTES {
        Some(EnCryptError::InputTooLarge)
    } else {
        None
    }
}

/// `e` is the encryption of `m` under `key`.
pub open spec fn is_metadata_encryption(m: Metadata, key: Seq<u8>, e: Metadata) -> bool {
    &&& e.cid@ == m.cid@ + marker()
    &&& e.encoded_tags@ == aes256gcm_seal(key, nonce_of(m.cid@), m.encoded_tags@)
    &&& e.encoded_tags@.len() == m.encoded_tags@.len() + TAG_SIZE_BYTES
}

/// The error that decrypting `e` under `key` gives, if any.
pub open spec fn metadata_decrypt_error(e: Metadata, key: Seq<u8>) -> Option<EnCryptError> {
    if !is_marked(e.cid@) {
        Some(EnCryptError::WrongState)
    } else if !has_nonce(unmarked(e.cid@)) {
        Some(EnCryptError::AddressingError)
    } else if open_result(key, nonce_of(unmarked(e.cid@)), e.encoded_tags@) is None {
        Some(EnCryptError::AuthenticationFailure)
    } else {
        None
    }
}

impl Metadata {
    /// Encodes the tag set canonically (the tags in ascending code-point
    /// order, each once, as `{"values":[...]}` in compact JSON) and
    /// addresses the encoding; see `lemma_canonical_tags`. Fails only with
    /// `AddressingError`, where the encoding has no identifier.
    pub fn new(tags: Tags) -> (r: Result<Metadata, EnCryptError>)
        ensures
            r is Ok ==> r->Ok_0.encoded_tags@ == encode_tags(canonical_tags(tags.values.deep_view()))
                && identifier_of(r->Ok_0.encoded_tags@) == Some(r->Ok_0.cid@)
                && r->Ok_0.stored_tags() == Some(canonical_tags(tags.values.deep_view()))
                && !is_marked(r->Ok_0.cid@) && has_nonce(r->Ok_0.cid@),
            r is Err ==> r->Err_0 == EnCryptError::AddressingError,
            identifier_of(encode_tags(canonical_tags(tags.values.deep_view()))) is Some ==> r is Ok,
    {
        let canonical = canonical_tag_list(&tags.values);
        let json = match json_encode_strings(&canonical) {
            Ok(j) => j,
            Err(_) => {
                return Err(EnCryptError::DecodeError);
            },
        };
        let mut encoded: Vec<u8> = vec![123u8, 34u8, 118u8, 97u8, 108u8, 117u8, 101u8, 115u8, 34u8, 58u8];
        assert(encoded@ =~= tags_prefix());
        append_bytes(&mut encoded, json.as_slice());
        encoded.push(125u8);
        let ghost vs = canonical.deep_view();
        proof {
            assert(encoded@ =~= encode_tags(vs));
            assert(encoded@.subrange(0, tags_prefix().len() as int) =~= tags_prefix());
            assert(encoded@.subrange(tags_prefix().len() as int, encoded@.len() - 1) =~= json@);
        }
        let cid = identify(encoded.as_slice())?;
        proof {
            crate::pointer::lemma_base32_unmarked(cid@);
        }
        Ok(Metadata { cid, encoded_tags: encoded })
    }

    /// Seals the encoded tags under `key` with the nonce of the identifier,
    /// and marks the identifier as encrypted.
    ///
    /// Fails with `WrongState` on metadata already marked encrypted, with
    /// `AddressingError` where the identifier gives no nonce, and with
    /// `InputTooLarge` where the cipher refuses the encoding.
    pub fn encrypt(self, key: &[u8; 32]) -> (r: Result<Metadata, EnCryptError>)
        ensures
            match metadata_encrypt_error(self) {
                Some(e) => r == Err::<Metadata, EnCryptError>(e),
                None => r is Ok && is_metadata_encryption(self, key@, r->Ok_0),
            },
    {
        if has_marker(self.cid.as_str()) {
            return Err(EnCryptError::WrongState);
        }
        let sealed = seal_for(self.cid.as_str(), key, self.encoded_tags.as_slice())?;
        let cid = add_marker(self.cid.as_str());
        Ok(Metadata { cid, encoded_tags: sealed })
    }

    /// Opens the encoded tags under `key` with the nonce of the identifier
    /// without its encrypted marker, and removes the marker.
    ///
    /// Fails with `WrongState` on metadata not marked encrypted, with
    /// `AddressingError` where the identifier gives no nonce, and with
    /// `AuthenticationFailure` where the tag does not verify. Decrypting
    /// what `encrypt` gave under the same key gives back what it came from.
    pub fn decrypt(self, key: &[u8; 32]) -> (r: Result<Metadata, EnCryptError>)
        ensures
            match metadata_decrypt_error(self, key@) {
                Some(e) => r == Err::<Metadata, EnCryptError>(e),
                None => r is Ok && r->Ok_0.cid@ == unmarked(self.cid@) && open_result(
                    key@,
                    nonce_of(unmarked(self.cid@)),
                    self.encoded_tags@,
                ) == Some(r->Ok_0.encoded_tags@),
            },
            forall|m: Metadata|
                metadata_encrypt_error(m) is None && #[trigger] is_metadata_encryption(
                    m,
                    key@,
                    self,
                ) ==> r is Ok && r->Ok_0.cid@ == m.cid@ && r->Ok_0.encoded_tags@
                    == m.encoded_tags@,
    {
        let ghost old_self = self;
        if !has_marker(self.cid.as_str()) {
            proof {
                assert forall|m: Metadata|
                    metadata_encrypt_error(m) is None && #[trigger] is_metadata_encryption(
                        m,
                        key@,
                        self,
                    ) implies false by {
                    lemma_unmark_marked(m.cid@);
                }
            }
            return Err(EnCryptError::WrongState);
        }
        let cid = strip_marker(self.cid.as_str());
        proof {
            assert forall|m: Metadata|
                metadata_encrypt_error(m) is None && #[trigger] is_metadata_encryption(
                    m,
                    key@,
                    old_self,
                ) implies cid@ == m.cid@ by {
                lemma_unmark_marked(m.cid@);
            }
        }
        let opened = open_for(cid.as_str(), key, self.encoded_tags.as_slice())?;
        Ok(Metadata { cid, encoded_tags: opened })
    }
}

/// Tag matching: metadata whose stored tags are the canonical form of a tag
/// list (as `new` makes it) matches a query exactly when the query is one
/// of the tags of the list.
pub proof fn lemma_stored_tags_match(values: Seq<Seq<char>>, m: Metadata, query: Seq<char>)
    requires
        m.stored_tags() == Some(canonical_tags(values)),
    ensures
        m.stored_tags()->Some_0.contains(query) <==> values.contains(query),
{
    lemma_canonical_tags(values);
}

proof fn lemma_ascending_unique(s1: Seq<Seq<char>>, s2: Seq<Seq<char>>)
    requires
        strictly_ascending(s1),
        strictly_ascending(s2),
        forall|t: Seq<char>| s1.contains(t) <==> s2.contains(t),
    ensures
        s1 == s2,
    decreases s1.len() + s2.len(),
{
    if s1.len() == 0 || s2.len() == 0 {
        if s1.len() > 0 {
            assert(s1.contains(s1[0]));
        }
        if s2.len() > 0 {
            assert(s2.contains(s2[0]));
        }
        assert(s1 =~= s2);
    } else {
        assert(s1.contains(s1[0]));
        assert(s2.contains(s2[0]));
        if s1[0] != s2[0] {
            let k = choose|k: int| 0 <= k < s2.len() && s2[k] == s1[0];
            let m = choose|m: int| 0 <= m < s1.len() && s1[m] == s2[0];
            assert(k > 0 && m > 0);
            assert(text_lt(s2[0], s2[k]));
            assert(text_lt(s1[0], s1[m]));
            lemma_text_lt_transitive(s1[0], s2[0], s1[0]);
            lemma_text_lt_irreflexive(s1[0]);
        }
        let r1 = s1.drop_first();
        let r2 = s2.drop_first();
        assert forall|t: Seq<char>| r1.contains(t) <==> r2.contains(t) by {
            if r1.contains(t) {
                let k = choose|k: int| 0 <= k < r1.len() && r1[k] == t;
                assert(s1[k + 1] == t && s1.contains(t));
                let m = choose|m: int| 0 <= m < s2.len() && s2[m] == t;
                assert(text_lt(s1[0], s1[k + 1]));
                lemma_text_lt_irreflexive(t);
                assert(m != 0);
                assert(r2[m - 1] == t);
            }
            if r2.contains(t) {
                let k = choose|k: int| 0 <= k < r2.len() && r2[k] == t;
                assert(s2[k + 1] == t && s2.contains(t));
                let m = choose|m: int| 0 <= m < s1.len() && s1[m] == t;
                assert(text_lt(s2[0], s2[k + 1]));
                lemma_text_lt_irreflexive(t);
                assert(m != 0);
                assert(r1[m - 1] == t);
            }
        }
        assert(strictly_ascending(r1)) by {
            assert forall|i: int, j: int| 0 <= i < j < r1.len() implies text_lt(
                #[trigger] r1[i],
                #[trigger] r1[j],
            ) by {
                assert(text_lt(s1[i + 1], s1[j + 1]));
            }
        }
        assert(strictly_ascending(r2)) by {
            assert forall|i: int, j: int| 0 <= i < j < r2.len() implies text_lt(
                #[trigger] r2[i],
                #[trigger] r2[j],
            ) by {
                assert(text_lt(s2[i + 1], s2[j + 1]));
            }
        }
        lemma_ascending_unique(r1, r2);
        assert(s1 =~= seq![s1[0]] + r1);
        assert(s2 =~= seq![s2[0]] + r2);
    }
}

/// Canonical encoding: two tag lists that hold the same tags, in any order
/// and with any repetition, have the same canonical form, so `new` gives
/// them the same encoding and identifier.
pub proof fn lemma_canonical_tags_order_free(v1: Seq<Seq<char>>, v2: Seq<Seq<char>>)
    requires
        forall|t: Seq<char>| v1.contains(t) <==> v2.contains(t),
    ensures
        canonical_tags(v1) == canonical_tags(v2),
{
    lemma_canonical_tags(v1);
    lemma_canonical_tags(v2);
    lemma_ascending_unique(canonical_tags(v1), canonical_tags(v2));
}

} // verus!
