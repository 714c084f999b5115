//! Lexicographic order on character sequences, compared by code point
//! (the same order as on their UTF-8 bytes).
use vstd::prelude::*;

verus! {

/// `a[i..]` comes no later than `b[i..]`, given that the first `i`
/// characters agree.
pub open spec fn le_from(a: Seq<char>, b: Seq<char>, i: int) -> bool
    decreases a.len() - i,
{
    if i >= a.len() {
        true
    } else if i >= b.len() {
        false
    } else if a[i] != b[i] {
        (a[i] as int) < (b[i] as int)
    } else {
        le_from(a, b, i + 1)
    }
}

/// `a` comes no later than `b` in lexicographic order.
pub open spec fn seq_le(a: Seq<char>, b: Seq<char>) -> bool {
    le_from(a, b, 0)
}

proof fn lemma_le_from_total(a: Seq<char>, b: Seq<char>, i: int)
    requires
        0 <= i,
    ensures
        le_from(a, b, i) || le_from(b, a, i),
    decreases a.len() - i,
{
    if i < a.len() && i < b.len() && a[i] == b[i] {
        lemma_le_from_total(a, b, i + 1);
    }
}

proof fn lemma_le_from_antisymmetric(a: Seq<char>, b: Seq<char>, i: int)
    requires
        0 <= i <= a.len(),
        i <= b.len(),
        le_from(a, b, i),
        le_from(b, a, i),
    ensures
        a.len() == b.len(),
        forall|j: int| i <= j < a.len() ==> a[j] == b[j],
    decreases a.len() - i,
{
    if i < a.len() {
        if a[i] != b[i] {
            assert((a[i] as int) != (b[i] as int));
        } else {
            lemma_le_from_antisymmetric(a, b, i + 1);
        }
    }
}

proof fn lemma_le_from_transitive(a: Seq<char>, b: Seq<char>, c: Seq<char>, i: int)
    requires
        0 <= i,
        le_from(a, b, i),
        le_from(b, c, i),
    ensures
        le_from(a, c, i),
    decreases a.len() - i,
{
    if i < a.len() && i < b.len() && i < c.len() && a[i] == b[i] && b[i] == c[i] {
        lemma_le_from_transitive(a, b, c, i + 1);
    }
}

/// The lexicographic order is total, antisymmetric and transitive.
pub proof fn lemma_seq_le_order()
    ensures
        forall|a: Seq<char>, b: Seq<char>| #[trigger] seq_le(a, b) || seq_le(b, a),
        forall|a: Seq<char>, b: Seq<char>|
            #[trigger] seq_le(a, b) && seq_le(b, a) ==> a == b,
        forall|a: Seq<char>, b: Seq<char>, c: Seq<char>|
            #[trigger] seq_le(a, b) && #[trigger] seq_le(b, c) ==> seq_le(a, c),
{
    assert forall|a: Seq<char>, b: Seq<char>| #[trigger] seq_le(a, b) || seq_le(b, a) by {
        lemma_le_from_total(a, b, 0);
    }
    assert forall|a: Seq<char>, b: Seq<char>| #[trigger] seq_le(a, b) && seq_le(b, a) implies a
        == b by {
        lemma_le_from_antisymmetric(a, b, 0);
        assert(a =~= b);
    }
    assert forall|a: Seq<char>, b: Seq<char>, c: Seq<char>|
        #[trigger] seq_le(a, b) && #[trigger] seq_le(b, c) implies seq_le(a, c) by {
        lemma_le_from_transitive(a, b, c, 0);
    }
}

/// Whether `a` comes no later than `b` in lexicographic order.
pub fn str_le(a: &str, b: &str) -> (r: bool)
    ensures
        r == seq_le(a@, b@),
{
    let la = a.unicode_len();
    let lb = b.unicode_len();
    let mut i: usize = 0;
    while i < la && i < lb && a.get_char(i) == b.get_char(i)
        invariant
            la == a@.len(),
            lb == b@.len(),
            i <= la,
            i <= lb,
            le_from(a@, b@, i as int) == seq_le(a@, b@),
        decreases la - i,
    {
        i = i + 1;
    }
    if i >= la {
        true
    } else if i >= lb {
        false
    } else {
        (a.get_char(i) as u32) < (b.get_char(i) as u32)
    }
}

} // verus!
