//! Comparison of strings, character by character.

use vstd::prelude::*;
use vstd::string::StrSliceExecFns;

verus! {

/// Whether two strings hold the same characters.
pub fn same_text(a: &str, b: &str) -> (r: bool)
    ensures
        r == (a@ == b@),
{
    let n: usize = a.unicode_len();
    if n != b.unicode_len() {
        return false;
    }
    let mut i: usize = 0;
    while i < n
        invariant
            i <= n,
            n == a@.len(),
            n == b@.len(),
            forall|k: int| 0 <= k < i ==> a@[k] == b@[k],
        decreases n - i,
    {
        if a.get_char(i) != b.get_char(i) {
            return false;
        }
        i += 1;
    }
    assert(a@ =~= b@);
    true
}

/// Dictionary order by code point, a prefix before what it begins.
pub open spec fn text_before(a: Seq<char>, b: Seq<char>) -> bool {
    exists|k: int| #[trigger] parts_at(a, b, k)
}

/// `a` and `b` agree before `k`, and there `a` ends or has the smaller character.
pub open spec fn parts_at(a: Seq<char>, b: Seq<char>, k: int) -> bool {
    &&& 0 <= k <= a.len()
    &&& k < b.len()
    &&& forall|j: int| 0 <= j < k ==> a[j] == b[j]
    &&& k < a.len() ==> (a[k] as int) < (b[k] as int)
}

/// Whether `a` comes before `b` in dictionary order.
pub fn comes_before(a: &str, b: &str) -> (r: bool)
    ensures
        r == text_before(a@, b@),
{
    let n: usize = a.unicode_len();
    let m: usize = b.unicode_len();
    let mut i: usize = 0;
    while i < n && i < m && a.get_char(i) == b.get_char(i)
        invariant
            i <= n,
            i <= m,
            n == a@.len(),
            m == b@.len(),
            forall|k: int| 0 <= k < i ==> a@[k] == b@[k],
        decreases n - i,
    {
        i += 1;
    }
    let first = if i >= m {
        false
    } else if i >= n {
        true
    } else {
        (a.get_char(i) as u32) < (b.get_char(i) as u32)
    };
    proof {
        if first {
            assert(parts_at(a@, b@, i as int));
        } else if text_before(a@, b@) {
            let k = choose|k: int| parts_at(a@, b@, k);
            if k < i {
                assert(a@[k] == b@[k]);
            } else if i < k {
                assert(a@[i as int] == b@[i as int]);
            }
        }
    }
    first
}

/// Dictionary order is a strict total order.
pub proof fn law_text_order_is_total(a: Seq<char>, b: Seq<char>)
    ensures
        !text_before(a, a),
        !(text_before(a, b) && text_before(b, a)),
        a == b || text_before(a, b) || text_before(b, a),
{
    if text_before(a, a) {
        let k = choose|k: int| parts_at(a, a, k);
        assert(parts_at(a, a, k));
    }
    if text_before(a, b) && text_before(b, a) {
        let k = choose|k: int| parts_at(a, b, k);
        let j = choose|j: int| parts_at(b, a, j);
        assert(parts_at(a, b, k) && parts_at(b, a, j));
        if k < j {
            assert(a[k] == b[k]);
        } else if j < k {
            assert(a[j] == b[j]);
        }
    }
    lemma_parting(a, b, 0);
}

/// Two strings that agree up to `k` are equal or part from there on.
proof fn lemma_parting(a: Seq<char>, b: Seq<char>, k: int)
    requires
        0 <= k <= a.len(),
        k <= b.len(),
        forall|j: int| 0 <= j < k ==> a[j] == b[j],
    ensures
        a == b || text_before(a, b) || text_before(b, a),
    decreases a.len() - k,
{
    if k == a.len() && k == b.len() {
        assert(a =~= b);
    } else if k == a.len() {
        assert(parts_at(a, b, k));
    } else if k == b.len() {
        assert(parts_at(b, a, k));
    } else if a[k] == b[k] {
        lemma_parting(a, b, k + 1);
    } else if (a[k] as int) < (b[k] as int) {
        assert(parts_at(a, b, k));
    } else {
        assert(parts_at(b, a, k));
    }
}

/// Dictionary order is transitive.
pub proof fn law_text_order_is_transitive(a: Seq<char>, b: Seq<char>, c: Seq<char>)
    requires
        text_before(a, b),
        text_before(b, c),
    ensures
        text_before(a, c),
{
    let j = choose|j: int| parts_at(a, b, j);
    let k = choose|k: int| parts_at(b, c, k);
    assert(parts_at(a, b, j) && parts_at(b, c, k));
    if j <= k {
        assert(parts_at(a, c, j));
    } else {
        assert(parts_at(a, c, k));
    }
}

/// The first character in which two texts differ decides between them, and a text comes before what
/// it begins.
pub proof fn law_first_difference_decides(a: Seq<char>, b: Seq<char>, k: int)
    requires
        0 <= k <= a.len(),
        k < b.len(),
        forall|j: int| 0 <= j < k ==> #[trigger] a[j] == b[j],
    ensures
        k == a.len() ==> text_before(a, b),
        k < a.len() && (a[k] as int) < (b[k] as int) ==> text_before(a, b),
{
    if k == a.len() || (a[k] as int) < (b[k] as int) {
        assert(parts_at(a, b, k));
    }
}

} // verus!
