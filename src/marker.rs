//! The marker that tags an identifier as naming encrypted content.
use vstd::prelude::*;
use vstd::string::{StrSliceExecFns, StringExecFns};

verus! {

/// The marker's characters.
pub open spec fn marker() -> Seq<char> {
    seq!['/', 'e', 'n', 'c', 'r', 'y', 'p', 't', 'e', 'd']
}

/// Whether the identifier ends with the marker.
pub open spec fn is_marked(id: Seq<char>) -> bool {
    id.len() >= marker().len() && id.subrange(id.len() - marker().len(), id.len() as int)
        == marker()
}

/// The identifier without its trailing marker.
pub open spec fn unmarked(id: Seq<char>) -> Seq<char> {
    id.subrange(0, id.len() - marker().len())
}

/// Marking and unmarking are inverse: a marked identifier is marked, and
/// removing the marker gives back the identifier.
pub proof fn lemma_unmark_marked(id: Seq<char>)
    ensures
        is_marked(id + marker()),
        unmarked(id + marker()) == id,
{
    let m = id + marker();
    assert(m.subrange(m.len() - marker().len(), m.len() as int) =~= marker());
    assert(unmarked(m) =~= id);
}

/// Whether `id` ends with the encrypted marker.
pub fn has_marker(id: &str) -> (r: bool)
    ensures
        r == is_marked(id@),
{
    let text = "/encrypted";
    proof {
        reveal_strlit("/encrypted");
        assert(text@ =~= marker());
    }
    let n = id.unicode_len();
    let m: usize = 10;
    if n < m {
        return false;
    }
    let mut i: usize = 0;
    while i < m
        invariant
            n == id@.len(),
            text@ == marker(),
            m == marker().len(),
            m <= n,
            i <= m,
            forall|j: int| 0 <= j < i ==> id@[n - m + j] == marker()[j],
        decreases m - i,
    {
        let c = id.get_char(n - m + i);
        if c != text.get_char(i) {
            assert(id@.subrange(n - m, n as int)[i as int] != marker()[i as int]);
            return false;
        }
        i = i + 1;
    }
    assert(id@.subrange(n - m, n as int) =~= marker());
    true
}

/// `id` with the encrypted marker appended.
pub fn add_marker(id: &str) -> (r: String)
    ensures
        r@ == id@ + marker(),
{
    let text = "/encrypted";
    proof {
        reveal_strlit("/encrypted");
        assert(text@ =~= marker());
    }
    String::from_str(id).concat(text)
}

/// `id` with its trailing encrypted marker removed.
pub fn strip_marker(id: &str) -> (r: String)
    requires
        is_marked(id@),
    ensures
        r@ == unmarked(id@),
{
    let n = id.unicode_len();
    String::from_str(id.substring_char(0, n - 10))
}

} // verus!
