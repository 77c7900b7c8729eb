//! Text helpers: the lexicographic order of workspace identities.
use vstd::prelude::*;
use vstd::string::*;

verus! {

/// `a` and `b` agree on their first `n` characters.
pub open spec fn agree_upto(a: Seq<char>, b: Seq<char>, n: int) -> bool {
    &&& 0 <= n <= a.len()
    &&& n <= b.len()
    &&& forall|k: int| 0 <= k < n ==> a[k] == b[k]
}

/// The lexicographic order in which two texts differ first at position `n`
/// (or `a` ends there while `b` goes on), with `a` on the smaller side.
pub open spec fn lt_at(a: Seq<char>, b: Seq<char>, n: int) -> bool {
    &&& agree_upto(a, b, n)
    &&& ((n == a.len() && n < b.len()) || (n < a.len() && n < b.len() && (a[n] as int) < (b[n] as int)))
}

/// Lexicographic (code point) order on texts, the order of `str` in std.
pub open spec fn text_lt(a: Seq<char>, b: Seq<char>) -> bool {
    exists|n: int| lt_at(a, b, n)
}

/// A sequence of texts in strictly increasing lexicographic order.
pub open spec fn strictly_sorted(s: Seq<Seq<char>>) -> bool {
    forall|i: int, j: int| 0 <= i < j < s.len() ==> text_lt(#[trigger] s[i], #[trigger] s[j])
}

/// No text comes before itself.
pub proof fn lemma_text_lt_irreflexive(a: Seq<char>)
    ensures
        !text_lt(a, a),
{
}

/// The order is transitive.
pub proof fn lemma_text_lt_transitive(a: Seq<char>, b: Seq<char>, c: Seq<char>)
    requires
        text_lt(a, b),
        text_lt(b, c),
    ensures
        text_lt(a, c),
{
    let i = choose|i: int| lt_at(a, b, i);
    let j = choose|j: int| lt_at(b, c, j);
    if i < j {
        assert(lt_at(a, c, i));
    } else if j < i {
        assert(lt_at(a, c, j));
    } else {
        assert(lt_at(a, c, i));
    }
}

/// The length of the longest common prefix of two texts.
spec fn common_prefix_len(a: Seq<char>, b: Seq<char>, n: int) -> int
    decreases a.len() - n,
{
    if n < 0 || n >= a.len() || n >= b.len() || a[n] != b[n] {
        n
    } else {
        common_prefix_len(a, b, n + 1)
    }
}

proof fn lemma_common_prefix(a: Seq<char>, b: Seq<char>, n: int)
    requires
        agree_upto(a, b, n),
    ensures
        agree_upto(a, b, common_prefix_len(a, b, n)),
        common_prefix_len(a, b, n) >= n,
        common_prefix_len(a, b, n) < a.len() && common_prefix_len(a, b, n) < b.len()
            ==> a[common_prefix_len(a, b, n)] != b[common_prefix_len(a, b, n)],
    decreases a.len() - n,
{
    if n < a.len() && n < b.len() && a[n] == b[n] {
        lemma_common_prefix(a, b, n + 1);
    }
}

/// Of two different texts, one comes before the other.
pub proof fn lemma_text_lt_total(a: Seq<char>, b: Seq<char>)
    requires
        a != b,
    ensures
        text_lt(a, b) || text_lt(b, a),
{
    lemma_common_prefix(a, b, 0);
    let n = common_prefix_len(a, b, 0);
    if n < a.len() && n < b.len() {
        if (a[n] as int) < (b[n] as int) {
            assert(lt_at(a, b, n));
        } else {
            assert(lt_at(b, a, n));
        }
    } else if n == a.len() && n < b.len() {
        assert(lt_at(a, b, n));
    } else if n == b.len() && n < a.len() {
        assert(lt_at(b, a, n));
    } else {
        assert(a =~= b);
    }
}

/// Whether `a` comes strictly before `b` in lexicographic order.
pub fn text_less(a: &str, b: &str) -> (r: bool)
    ensures
        r == text_lt(a@, b@),
{
    let la = a.unicode_len();
    let lb = b.unicode_len();
    let mut i: usize = 0;
    while i < la && i < lb
        invariant
            la == a@.len(),
            lb == b@.len(),
            agree_upto(a@, b@, i as int),
        decreases la - i,
    {
        let ca = a.get_char(i);
        let cb = b.get_char(i);
        if ca != cb {
            if (ca as u32) < (cb as u32) {
                assert(lt_at(a@, b@, i as int));
                return true;
            } else {
                proof {
                    if text_lt(a@, b@) {
                        let n = choose|n: int| lt_at(a@, b@, n);
                        assert(n == i);
                    }
                }
                return false;
            }
        }
        i = i + 1;
    }
    if i == la && i < lb {
        assert(lt_at(a@, b@, i as int));
        true
    } else {
        proof {
            if text_lt(a@, b@) {
                let n = choose|n: int| lt_at(a@, b@, n);
                assert(n <= i);
            }
        }
        false
    }
}

/// Whether two texts are equal.
pub fn text_equal(a: &str, b: &str) -> (r: bool)
    ensures
        r == (a@ == b@),
{
    let la = a.unicode_len();
    let lb = b.unicode_len();
    if la != lb {
        return false;
    }
    let mut i: usize = 0;
    while i < la
        invariant
            la == a@.len(),
            lb == b@.len(),
            la == lb,
            i <= la,
            forall|k: int| 0 <= k < i ==> a@[k] == b@[k],
        decreases la - i,
    {
        if a.get_char(i) != b.get_char(i) {
            return false;
        }
        i = i + 1;
    }
    assert(a@ =~= b@);
    true
}

} // verus!
