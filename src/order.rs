//! The lexicographic order on character sequences: its facts, and the
//! comparison of two strings by it.
use vstd::prelude::*;

use crate::text::{chars_of, seq_less};
use vstd::utf8::char_u32_cast;

verus! {

/// Three-way comparison of character sequences: -1, 0 or 1.
pub open spec fn seq_cmp(a: Seq<char>, b: Seq<char>) -> int {
    if seq_less(a, b) {
        -1
    } else if seq_less(b, a) {
        1
    } else {
        0
    }
}

/// No two sequences each come before the other.
pub proof fn lemma_seq_less_asymmetric(a: Seq<char>, b: Seq<char>)
    ensures
        !(seq_less(a, b) && seq_less(b, a)),
    decreases a.len(),
{
    if a.len() > 0 && b.len() > 0 && a[0] == b[0] {
        lemma_seq_less_asymmetric(a.drop_first(), b.drop_first());
    }
}

/// Of two different sequences one comes before the other.
pub proof fn lemma_seq_less_total(a: Seq<char>, b: Seq<char>)
    ensures
        a == b || seq_less(a, b) || seq_less(b, a),
    decreases a.len(),
{
    if a.len() > 0 && b.len() > 0 && a[0] == b[0] {
        lemma_seq_less_total(a.drop_first(), b.drop_first());
        if a.drop_first() == b.drop_first() {
            assert(a =~= seq![a[0]] + a.drop_first());
            assert(b =~= seq![b[0]] + b.drop_first());
        }
    } else if a.len() == 0 && b.len() == 0 {
        assert(a =~= b);
    } else if a.len() > 0 && b.len() > 0 {
        char_u32_cast(a[0], a[0] as u32);
        char_u32_cast(b[0], b[0] as u32);
        assert((a[0] as u32) != (b[0] as u32));
    }
}

/// The order on sequences is transitive.
pub proof fn lemma_seq_less_transitive(a: Seq<char>, b: Seq<char>, c: Seq<char>)
    requires
        seq_less(a, b),
        seq_less(b, c),
    ensures
        seq_less(a, c),
    decreases a.len(),
{
    if a.len() > 0 && a[0] == b[0] && b[0] == c[0] {
        lemma_seq_less_transitive(a.drop_first(), b.drop_first(), c.drop_first());
    }
}

/// `seq_cmp` is antisymmetric, and zero only on equal sequences.
pub proof fn lemma_seq_cmp_antisymmetric(a: Seq<char>, b: Seq<char>)
    ensures
        seq_cmp(a, b) == -seq_cmp(b, a),
        seq_cmp(a, b) == 0 <==> a == b,
{
    lemma_seq_less_asymmetric(a, b);
    lemma_seq_less_total(a, b);
    if a == b {
        lemma_seq_less_asymmetric(a, a);
    }
}

/// `seq_cmp` orders transitively.
pub proof fn lemma_seq_cmp_transitive(a: Seq<char>, b: Seq<char>, c: Seq<char>)
    requires
        seq_cmp(a, b) <= 0,
        seq_cmp(b, c) <= 0,
    ensures
        seq_cmp(a, c) <= 0,
        seq_cmp(a, b) < 0 || seq_cmp(b, c) < 0 ==> seq_cmp(a, c) < 0,
{
    lemma_seq_cmp_antisymmetric(a, b);
    lemma_seq_cmp_antisymmetric(b, c);
    lemma_seq_cmp_antisymmetric(a, c);
    if seq_less(a, b) && seq_less(b, c) {
        lemma_seq_less_transitive(a, b, c);
    }
}

/// `a` and `b` agree on their first `i` characters, so they compare as
/// what follows those characters does.
proof fn lemma_seq_less_common_prefix(a: Seq<char>, b: Seq<char>, i: int)
    requires
        0 <= i <= a.len(),
        i <= b.len(),
        a.subrange(0, i) == b.subrange(0, i),
    ensures
        seq_less(a, b) == seq_less(a.subrange(i, a.len() as int), b.subrange(i, b.len() as int)),
    decreases i,
{
    if i == 0 {
        assert(a.subrange(0, a.len() as int) =~= a);
        assert(b.subrange(0, b.len() as int) =~= b);
    } else {
        assert(a[0] == a.subrange(0, i)[0]);
        assert(b[0] == b.subrange(0, i)[0]);
        assert(a.drop_first().subrange(0, i - 1) =~= a.subrange(0, i).drop_first());
        assert(b.drop_first().subrange(0, i - 1) =~= b.subrange(0, i).drop_first());
        lemma_seq_less_common_prefix(a.drop_first(), b.drop_first(), i - 1);
        assert(a.drop_first().subrange(i - 1, a.len() - 1) =~= a.subrange(i, a.len() as int));
        assert(b.drop_first().subrange(i - 1, b.len() - 1) =~= b.subrange(i, b.len() as int));
    }
}

/// Three-way lexicographic comparison of two strings by code point.
pub fn compare_text(a: &str, b: &str) -> (r: i8)
    ensures
        r as int == seq_cmp(a@, b@),
{
    let x = chars_of(a);
    let y = chars_of(b);
    let na = x.len();
    let nb = y.len();
    let mut i: usize = 0;
    proof {
        lemma_seq_less_asymmetric(a@, b@);
    }
    loop
        invariant
            x@ == a@,
            y@ == b@,
            na == a@.len(),
            nb == b@.len(),
            i <= na,
            i <= nb,
            a@.subrange(0, i as int) == b@.subrange(0, i as int),
            !(seq_less(a@, b@) && seq_less(b@, a@)),
        decreases na - i,
    {
        proof {
            lemma_seq_less_common_prefix(a@, b@, i as int);
            lemma_seq_less_common_prefix(b@, a@, i as int);
        }
        let ghost ra = a@.subrange(i as int, a@.len() as int);
        let ghost rb = b@.subrange(i as int, b@.len() as int);
        if i == na && i == nb {
            assert(a@ =~= a@.subrange(0, i as int));
            assert(b@ =~= b@.subrange(0, i as int));
            return 0;
        }
        if i == nb {
            return 1;
        }
        if i == na {
            return -1;
        }
        let ca = x[i];
        let cb = y[i];
        assert(ca == a@[i as int] && cb == b@[i as int]);
        assert(ra[0] == ca && rb[0] == cb);
        if ca != cb {
            if (ca as u32) < (cb as u32) {
                return -1;
            } else {
                proof {
                    char_u32_cast(ca, ca as u32);
                    char_u32_cast(cb, cb as u32);
                }
                return 1;
            }
        }
        assert(a@.subrange(0, i + 1) =~= a@.subrange(0, i as int).push(ca));
        assert(b@.subrange(0, i + 1) =~= b@.subrange(0, i as int).push(cb));
        i = i + 1;
    }
}

} // verus!
