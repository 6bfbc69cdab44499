//! Collating sequences for text values, and the byte-wise ordering that
//! every text and blob comparison reduces to.
use std::cmp::Ordering;
use vstd::prelude::*;
use vstd::utf8::encode_utf8;

verus! {

/// A collating sequence: how two text values compare.
#[derive(Clone, Copy, Debug, PartialEq, Eq, Structural)]
pub enum CollationSeq {
    /// Byte-wise comparison of the UTF-8 text.
    Binary,
    /// Like `Binary`, but ASCII upper-case letters compare as lower-case ones.
    NoCase,
    /// Like `Binary`, but trailing spaces are ignored.
    Rtrim,
}

impl Default for CollationSeq {
    fn default() -> (r: Self)
        ensures
            r == CollationSeq::Binary,
    {
        CollationSeq::Binary
    }
}

/// Sign of a comparison result: `-1`, `0` or `1`.
pub open spec fn sign_ordering(s: int) -> Ordering {
    if s < 0 {
        Ordering::Less
    } else if s > 0 {
        Ordering::Greater
    } else {
        Ordering::Equal
    }
}

/// Lexicographic order of two byte strings, looking from position `i` on:
/// `-1` when `a` comes first, `1` when `b` comes first, `0` when they agree.
pub open spec fn bytes_order_from(a: Seq<u8>, b: Seq<u8>, i: int) -> int
    decreases a.len() - i,
{
    if i < 0 {
        0
    } else if i >= a.len() && i >= b.len() {
        0
    } else if i >= a.len() {
        -1
    } else if i >= b.len() {
        1
    } else if a[i] < b[i] {
        -1
    } else if a[i] > b[i] {
        1
    } else {
        bytes_order_from(a, b, i + 1)
    }
}

/// Lexicographic order of two byte strings (that of `<[u8]>::cmp`).
pub open spec fn bytes_order(a: Seq<u8>, b: Seq<u8>) -> int {
    bytes_order_from(a, b, 0)
}

/// ASCII lower-casing of one byte.
pub open spec fn ascii_lower(c: u8) -> u8 {
    if 65 <= c <= 90 {
        (c + 32) as u8
    } else {
        c
    }
}

/// Length of `s` once its trailing spaces are removed.
pub open spec fn rtrim_len(s: Seq<u8>) -> nat
    decreases s.len(),
{
    if s.len() > 0 && s.last() == 32u8 {
        rtrim_len(s.drop_last())
    } else {
        s.len()
    }
}

/// The bytes by which a text value is ordered under a collating sequence.
pub open spec fn collation_key(coll: CollationSeq, s: Seq<u8>) -> Seq<u8> {
    match coll {
        CollationSeq::Binary => s,
        CollationSeq::NoCase => s.map_values(|c: u8| ascii_lower(c)),
        CollationSeq::Rtrim => s.take(rtrim_len(s) as int),
    }
}

/// Order of two texts (given by their UTF-8 bytes) under a collating sequence.
pub open spec fn text_order(coll: CollationSeq, a: Seq<u8>, b: Seq<u8>) -> int {
    bytes_order(collation_key(coll, a), collation_key(coll, b))
}

proof fn lemma_bytes_order_from_reflexive(a: Seq<u8>, i: int)
    ensures
        bytes_order_from(a, a, i) == 0,
    decreases a.len() - i,
{
    if i >= 0 && i < a.len() {
        lemma_bytes_order_from_reflexive(a, i + 1);
    }
}

proof fn lemma_bytes_order_from_antisymmetric(a: Seq<u8>, b: Seq<u8>, i: int)
    ensures
        bytes_order_from(a, b, i) == -bytes_order_from(b, a, i),
    decreases a.len() - i,
{
    if i >= 0 && i < a.len() && i < b.len() && a[i] == b[i] {
        lemma_bytes_order_from_antisymmetric(a, b, i + 1);
    }
}

proof fn lemma_bytes_order_from_transitive(a: Seq<u8>, b: Seq<u8>, c: Seq<u8>, i: int)
    requires
        bytes_order_from(a, b, i) <= 0,
        bytes_order_from(b, c, i) <= 0,
    ensures
        bytes_order_from(a, c, i) <= 0,
    decreases a.len() - i,
{
    if i >= 0 && i < a.len() && i < b.len() && i < c.len() && a[i] == b[i] && b[i] == c[i] {
        lemma_bytes_order_from_transitive(a, b, c, i + 1);
    }
}

/// The lexicographic order on byte strings is a total preorder: a string
/// ties with itself, swapping the operands negates the result, and it is
/// transitive.
pub proof fn lemma_bytes_order_laws(a: Seq<u8>, b: Seq<u8>, c: Seq<u8>)
    ensures
        bytes_order(a, a) == 0,
        bytes_order(a, b) == -bytes_order(b, a),
        -1 <= bytes_order(a, b) <= 1,
        bytes_order(a, b) <= 0 && bytes_order(b, c) <= 0 ==> bytes_order(a, c) <= 0,
{
    lemma_bytes_order_from_reflexive(a, 0);
    lemma_bytes_order_from_antisymmetric(a, b, 0);
    lemma_bytes_order_from_range(a, b, 0);
    if bytes_order(a, b) <= 0 && bytes_order(b, c) <= 0 {
        lemma_bytes_order_from_transitive(a, b, c, 0);
    }
}

proof fn lemma_bytes_order_from_range(a: Seq<u8>, b: Seq<u8>, i: int)
    ensures
        -1 <= bytes_order_from(a, b, i) <= 1,
    decreases a.len() - i,
{
    if i >= 0 && i < a.len() && i < b.len() && a[i] == b[i] {
        lemma_bytes_order_from_range(a, b, i + 1);
    }
}

/// `a` and `b` agree on the positions from `i` up to `j`.
spec fn agree(a: Seq<u8>, b: Seq<u8>, i: int, j: int) -> bool {
    forall|k: int| i <= k < j ==> a[k] == b[k]
}

/// From `i` on, `a` and `b` first differ at `j`, where `a` holds the smaller byte.
spec fn first_less_at(a: Seq<u8>, b: Seq<u8>, i: int, j: int) -> bool {
    &&& i <= j < a.len()
    &&& j < b.len()
    &&& agree(a, b, i, j)
    &&& a[j] < b[j]
}

proof fn lemma_bytes_order_from_meaning(a: Seq<u8>, b: Seq<u8>, i: int)
    requires
        0 <= i <= a.len(),
        i <= b.len(),
    ensures
        bytes_order_from(a, b, i) == 0 <==> (a.len() == b.len() && agree(a, b, i, a.len() as int)),
        bytes_order_from(a, b, i) < 0 <==> ((a.len() < b.len() && agree(a, b, i, a.len() as int))
            || exists|j: int| first_less_at(a, b, i, j)),
    decreases a.len() - i,
{
    if i == a.len() && i == b.len() {
        assert(!exists|j: int| first_less_at(a, b, i, j));
    } else if i == a.len() {
    } else if i == b.len() {
        assert(!exists|j: int| first_less_at(a, b, i, j));
        assert(!agree(a, b, i, a.len() as int) || a.len() != b.len());
    } else if a[i] < b[i] {
        assert(first_less_at(a, b, i, i));
        assert(!agree(a, b, i, a.len() as int)) by {
            assert(a[i] != b[i]);
        }
    } else if a[i] > b[i] {
        assert(!agree(a, b, i, a.len() as int)) by {
            assert(a[i] != b[i]);
        }
        assert forall|j: int| !first_less_at(a, b, i, j) by {
            if i < j && first_less_at(a, b, i, j) {
                assert(a[i] == b[i]);
            }
        }
    } else {
        lemma_bytes_order_from_meaning(a, b, i + 1);
        assert(agree(a, b, i, a.len() as int) <==> agree(a, b, i + 1, a.len() as int)) by {
            if agree(a, b, i + 1, a.len() as int) {
                assert forall|k: int| i <= k < a.len() implies a[k] == b[k] by {
                    if k > i {
                        assert(agree(a, b, i + 1, a.len() as int));
                    }
                }
            }
        }
        if exists|j: int| first_less_at(a, b, i, j) {
            let j = choose|j: int| first_less_at(a, b, i, j);
            assert(j != i);
            assert(first_less_at(a, b, i + 1, j));
        }
        let i1 = i + 1;
        if exists|j: int| first_less_at(a, b, i1, j) {
            let j = choose|j: int| first_less_at(a, b, i1, j);
            assert forall|k: int| i <= k < j implies a[k] == b[k] by {
                if k > i {
                    assert(agree(a, b, i + 1, j));
                }
            }
            assert(first_less_at(a, b, i, j));
        }
    }
}

/// Byte strings are ordered lexicographically: two tie exactly when they are
/// equal, and `a` comes before `b` exactly when `a` is a proper prefix of `b`,
/// or at the first position where they differ `a` holds the smaller byte.
pub proof fn lemma_bytes_order_lexicographic(a: Seq<u8>, b: Seq<u8>)
    ensures
        bytes_order(a, b) == 0 <==> a == b,
        bytes_order(a, b) < 0 <==> ((a.len() < b.len() && b.take(a.len() as int) == a) || exists|i: int|
            0 <= i < a.len() && i < b.len() && #[trigger] a.take(i) == b.take(i) && a[i] < b[i]),
{
    lemma_bytes_order_from_meaning(a, b, 0);
    if a.len() == b.len() && agree(a, b, 0, a.len() as int) {
        assert(a =~= b);
    }
    if a == b {
        assert(agree(a, b, 0, a.len() as int));
    }
    if a.len() < b.len() && agree(a, b, 0, a.len() as int) {
        assert(b.take(a.len() as int) =~= a);
    }
    if a.len() < b.len() && b.take(a.len() as int) == a {
        assert forall|k: int| 0 <= k < a.len() implies a[k] == b[k] by {
            assert(b.take(a.len() as int)[k] == b[k]);
        }
        assert(agree(a, b, 0, a.len() as int));
    }
    if exists|j: int| first_less_at(a, b, 0, j) {
        let j = choose|j: int| first_less_at(a, b, 0, j);
        assert(a.take(j) =~= b.take(j)) by {
            assert(agree(a, b, 0, j));
        }
    }
    if exists|i: int| 0 <= i < a.len() && i < b.len() && #[trigger] a.take(i) == b.take(i) && a[i] < b[i] {
        let i = choose|i: int| 0 <= i < a.len() && i < b.len() && #[trigger] a.take(i) == b.take(i) && a[i] < b[i];
        assert forall|k: int| 0 <= k < i implies a[k] == b[k] by {
            assert(a.take(i)[k] == a[k] && b.take(i)[k] == b[k]);
        }
        assert(first_less_at(a, b, 0, i));
    }
}

/// Under `Binary`, texts compare byte by byte.
pub proof fn lemma_binary_compares_bytes(a: Seq<u8>, b: Seq<u8>)
    ensures
        text_order(CollationSeq::Binary, a, b) == bytes_order(a, b),
{
}

/// Under `NoCase` a text compares by its bytes with every ASCII upper-case
/// letter (`A` = 65 to `Z` = 90) replaced by its lower-case one (32 more),
/// and every other byte left as it is.
pub proof fn lemma_nocase_folds_ascii_upper_case(s: Seq<u8>)
    ensures
        collation_key(CollationSeq::NoCase, s).len() == s.len(),
        forall|i: int|
            0 <= i < s.len() ==> #[trigger] collation_key(CollationSeq::NoCase, s)[i] == if 65 <= s[i]
                <= 90 {
                (s[i] + 32) as u8
            } else {
                s[i]
            },
{
}

/// Under `NoCase` two texts tie exactly when they differ only in the ASCII
/// case of their letters.
pub proof fn lemma_nocase_ties_iff_same_but_case(a: Seq<u8>, b: Seq<u8>)
    ensures
        text_order(CollationSeq::NoCase, a, b) == 0 <==> (a.len() == b.len() && forall|i: int|
            0 <= i < a.len() ==> (#[trigger] a[i] == b[i] || (65 <= a[i] <= 90 && b[i] == a[i] + 32)
                || (65 <= b[i] <= 90 && a[i] == b[i] + 32))),
{
    let ka = collation_key(CollationSeq::NoCase, a);
    let kb = collation_key(CollationSeq::NoCase, b);
    lemma_bytes_order_lexicographic(ka, kb);
    lemma_nocase_folds_ascii_upper_case(a);
    lemma_nocase_folds_ascii_upper_case(b);
    if ka == kb {
        assert forall|i: int| 0 <= i < a.len() implies (#[trigger] a[i] == b[i] || (65 <= a[i] <= 90
            && b[i] == a[i] + 32) || (65 <= b[i] <= 90 && a[i] == b[i] + 32)) by {
            assert(ka[i] == kb[i]);
        }
    }
    if a.len() == b.len() && forall|i: int|
        0 <= i < a.len() ==> (#[trigger] a[i] == b[i] || (65 <= a[i] <= 90 && b[i] == a[i] + 32) || (
        65 <= b[i] <= 90 && a[i] == b[i] + 32)) {
        assert forall|i: int| 0 <= i < ka.len() implies ka[i] == kb[i] by {
            assert(a[i] == b[i] || (65 <= a[i] <= 90 && b[i] == a[i] + 32) || (65 <= b[i] <= 90 && a[i]
                == b[i] + 32));
        }
        assert(ka =~= kb);
    }
}

/// Under `Rtrim` a text compares by its bytes without its trailing spaces
/// (byte 32): the key is a prefix of the text, only spaces follow it, and
/// it does not itself end in a space.
pub proof fn lemma_rtrim_drops_trailing_spaces(s: Seq<u8>)
    ensures
        ({
            let k = collation_key(CollationSeq::Rtrim, s);
            &&& k.len() <= s.len()
            &&& k == s.take(k.len() as int)
            &&& forall|i: int| k.len() <= i < s.len() ==> #[trigger] s[i] == 32u8
            &&& k.len() == 0 || k.last() != 32u8
        }),
    decreases s.len(),
{
    lemma_rtrim_len_bound(s);
    if s.len() > 0 && s.last() == 32u8 {
        let t = s.drop_last();
        lemma_rtrim_drops_trailing_spaces(t);
        lemma_rtrim_len_bound(t);
        let n = rtrim_len(t);
        assert(s.take(n as int) =~= t.take(n as int));
        assert forall|i: int| n <= i < s.len() implies #[trigger] s[i] == 32u8 by {
            if i < t.len() {
                assert(s[i] == t[i]);
            }
        }
        if n > 0 {
            assert(s.take(n as int).last() == t.take(n as int).last());
        }
    }
}

/// Under `Rtrim` appending spaces to a text does not change how it compares:
/// it ties with the text without them.
pub proof fn lemma_rtrim_ignores_appended_spaces(a: Seq<u8>, m: nat)
    ensures
        text_order(CollationSeq::Rtrim, a + Seq::new(m, |i: int| 32u8), a) == 0,
    decreases m,
{
    let sp = Seq::new(m, |i: int| 32u8);
    if m == 0 {
        assert(a + sp =~= a);
        let ka = collation_key(CollationSeq::Rtrim, a);
        lemma_bytes_order_lexicographic(ka, ka);
    } else {
        lemma_rtrim_ignores_appended_spaces(a, (m - 1) as nat);
        let sp1 = Seq::new((m - 1) as nat, |i: int| 32u8);
        assert((a + sp).drop_last() =~= a + sp1);
        assert((a + sp).last() == 32u8);
        assert(rtrim_len(a + sp) == rtrim_len(a + sp1));
        let ka = collation_key(CollationSeq::Rtrim, a);
        let k1 = collation_key(CollationSeq::Rtrim, a + sp1);
        lemma_bytes_order_lexicographic(k1, ka);
        lemma_rtrim_len_bound(a);
        lemma_rtrim_len_bound(a + sp1);
        assert(collation_key(CollationSeq::Rtrim, a + sp) =~= k1) by {
            assert forall|i: int| 0 <= i < k1.len() implies (a + sp)[i] == (a + sp1)[i] by {
                assert((a + sp1)[i] == (a + sp).drop_last()[i]);
            }
        }
        lemma_bytes_order_lexicographic(collation_key(CollationSeq::Rtrim, a + sp), ka);
    }
}

/// Exec form of `ascii_lower`.
fn lower_byte(c: u8) -> (r: u8)
    ensures
        r == ascii_lower(c),
{
    if 65 <= c && c <= 90 {
        c + 32
    } else {
        c
    }
}

/// Exec form of `rtrim_len`.
fn trimmed_len(s: &[u8]) -> (n: usize)
    ensures
        n == rtrim_len(s@),
{
    let mut n = s.len();
    assert(s@.take(n as int) =~= s@);
    while n > 0 && s[n - 1] == 32u8
        invariant
            n <= s@.len(),
            rtrim_len(s@) == rtrim_len(s@.take(n as int)),
        decreases n,
    {
        proof {
            assert(s@.take(n as int).drop_last() =~= s@.take(n - 1));
        }
        n = n - 1;
    }
    n
}

/// Trimming never lengthens a text.
proof fn lemma_rtrim_len_bound(s: Seq<u8>)
    ensures
        rtrim_len(s) <= s.len(),
    decreases s.len(),
{
    if s.len() > 0 && s.last() == 32u8 {
        lemma_rtrim_len_bound(s.drop_last());
    }
}

impl CollationSeq {
    /// Compares two texts under this collating sequence.
    pub fn compare_strings(&self, lhs: &str, rhs: &str) -> (r: Ordering)
        ensures
            r == sign_ordering(text_order(*self, encode_utf8(lhs@), encode_utf8(rhs@))),
    {
        compare_keys(*self, lhs.as_bytes(), rhs.as_bytes())
    }
}

/// Compares two byte strings lexicographically.
pub fn compare_bytes(lhs: &[u8], rhs: &[u8]) -> (r: Ordering)
    ensures
        r == sign_ordering(bytes_order(lhs@, rhs@)),
{
    compare_keys(CollationSeq::Binary, lhs, rhs)
}

/// Compares the collation keys of two byte strings.
fn compare_keys(coll: CollationSeq, lhs: &[u8], rhs: &[u8]) -> (r: Ordering)
    ensures
        r == sign_ordering(text_order(coll, lhs@, rhs@)),
{
    let ghost ka = collation_key(coll, lhs@);
    let ghost kb = collation_key(coll, rhs@);
    let la: usize = match coll {
        CollationSeq::Rtrim => trimmed_len(lhs),
        _ => lhs.len(),
    };
    let lb: usize = match coll {
        CollationSeq::Rtrim => trimmed_len(rhs),
        _ => rhs.len(),
    };
    let lowered = match coll {
        CollationSeq::NoCase => true,
        _ => false,
    };
    proof {
        lemma_rtrim_len_bound(lhs@);
        lemma_rtrim_len_bound(rhs@);
    }
    assert(ka.len() == la && kb.len() == lb);
    assert forall|j: int| 0 <= j < la implies ka[j] == (if lowered { ascii_lower(lhs@[j]) } else { lhs@[j] }) by {
        assert(j < lhs@.len());
    }
    assert forall|j: int| 0 <= j < lb implies kb[j] == (if lowered { ascii_lower(rhs@[j]) } else { rhs@[j] }) by {
        assert(j < rhs@.len());
    }
    let mut i: usize = 0;
    let ghost mut gi: int = 0;
    while i < la && i < lb
        invariant
            la <= lhs@.len(),
            lb <= rhs@.len(),
            ka.len() == la,
            kb.len() == lb,
            i <= la,
            i <= lb,
            forall|j: int| 0 <= j < la ==> ka[j] == (if lowered { ascii_lower(lhs@[j]) } else { lhs@[j] }),
            forall|j: int| 0 <= j < lb ==> kb[j] == (if lowered { ascii_lower(rhs@[j]) } else { rhs@[j] }),
            gi == i,
            ka == collation_key(coll, lhs@),
            kb == collation_key(coll, rhs@),
            bytes_order(ka, kb) == bytes_order_from(ka, kb, gi),
        decreases la - i,
    {
        let x = if lowered { lower_byte(lhs[i]) } else { lhs[i] };
        let y = if lowered { lower_byte(rhs[i]) } else { rhs[i] };
        assert(x == ka[gi] && y == kb[gi]);
        if x < y {
            return Ordering::Less;
        }
        if x > y {
            return Ordering::Greater;
        }
        i = i + 1;
        proof {
            gi = gi + 1;
        }
    }
    if la < lb {
        Ordering::Less
    } else if la > lb {
        Ordering::Greater
    } else {
        Ordering::Equal
    }
}

} // verus!
