//! Lexicographic order on relative paths (as character sequences).
//!
//! Snapshot entries and report lines are kept strictly sorted by this order,
//! which is what makes reconciliation output deterministic.

use vstd::prelude::*;

verus! {

/// `a` comes strictly before `b` in lexicographic order by code point.
pub open spec fn str_lt(a: Seq<char>, b: Seq<char>) -> bool
    decreases a.len(),
{
    if b.len() == 0 {
        false
    } else if a.len() == 0 {
        true
    } else if (a[0] as u32) < (b[0] as u32) {
        true
    } else if a[0] == b[0] {
        str_lt(a.skip(1), b.skip(1))
    } else {
        false
    }
}

/// Any two character sequences are ordered one way, the other, or equal.
pub proof fn lemma_str_lt_trichotomy(a: Seq<char>, b: Seq<char>)
    ensures
        str_lt(a, b) || str_lt(b, a) || a == b,
    decreases a.len(),
{
    if a.len() == 0 && b.len() == 0 {
        assert(a =~= b);
    } else if a.len() > 0 && b.len() > 0 {
        if a[0] == b[0] {
            lemma_str_lt_trichotomy(a.skip(1), b.skip(1));
            if !str_lt(a.skip(1), b.skip(1)) && !str_lt(b.skip(1), a.skip(1)) {
                assert(a.skip(1) == b.skip(1));
                assert(a =~= seq![a[0]] + a.skip(1));
                assert(b =~= seq![b[0]] + b.skip(1));
            }
        } else {
            if !((a[0] as u32) < (b[0] as u32)) && !((b[0] as u32) < (a[0] as u32)) {
                vstd::utf8::char_u32_cast(a[0], a[0] as u32);
                vstd::utf8::char_u32_cast(b[0], b[0] as u32);
                assert(a[0] == b[0]);
            }
        }
    }
}

/// The order is irreflexive and asymmetric.
pub proof fn lemma_str_lt_asym(a: Seq<char>, b: Seq<char>)
    requires
        str_lt(a, b),
    ensures
        !str_lt(b, a),
        a != b,
    decreases a.len(),
{
    if a.len() > 0 && b.len() > 0 && a[0] == b[0] {
        lemma_str_lt_asym(a.skip(1), b.skip(1));
        if a == b {
            assert(a.skip(1) == b.skip(1));
        }
    } else {
        if a == b {
            assert(a.len() == b.len());
            if a.len() > 0 {
                assert(a[0] == b[0]);
            }
        }
    }
}

/// The order is transitive.
pub proof fn lemma_str_lt_trans(a: Seq<char>, b: Seq<char>, c: Seq<char>)
    requires
        str_lt(a, b),
        str_lt(b, c),
    ensures
        str_lt(a, c),
    decreases a.len(),
{
    if a.len() > 0 && b.len() > 0 && c.len() > 0 {
        if a[0] == b[0] && b[0] == c[0] {
            lemma_str_lt_trans(a.skip(1), b.skip(1), c.skip(1));
        }
    }
}

/// If `a` and `b` agree on the first `i` characters and then differ in `b`'s
/// favour (either `a` ends or `a`'s character is smaller), then `a` comes
/// first.
proof fn lemma_str_lt_at(a: Seq<char>, b: Seq<char>, i: int)
    requires
        0 <= i <= a.len(),
        i <= b.len(),
        forall|j: int| 0 <= j < i ==> a[j] == b[j],
        i < b.len(),
        i == a.len() || (a[i] as u32) < (b[i] as u32),
    ensures
        str_lt(a, b),
    decreases i,
{
    if i > 0 {
        lemma_str_lt_at(a.skip(1), b.skip(1), i - 1);
    }
}

/// Three-way comparison of two strings: `-1` if `a` comes first, `0` if they
/// are equal, `1` if `b` comes first.
pub fn cmp_str(a: &str, b: &str) -> (o: i8)
    ensures
        o == -1 || o == 0 || o == 1,
        o == -1 <==> str_lt(a@, b@),
        o == 0 <==> a@ == b@,
        o == 1 <==> str_lt(b@, a@),
{
    let a_len = a.unicode_len();
    let b_len = b.unicode_len();
    let mut i: usize = 0;
    loop
        invariant
            i <= a_len,
            i <= b_len,
            a_len == a@.len(),
            b_len == b@.len(),
            forall|j: int| 0 <= j < i ==> a@[j] == b@[j],
        decreases a_len - i,
    {
        if i == a_len && i == b_len {
            proof {
                assert(a@ =~= b@);
                lemma_str_lt_asym_total(a@, b@);
            }
            return 0;
        }
        if i == a_len {
            proof {
                lemma_str_lt_at(a@, b@, i as int);
                lemma_str_lt_asym(a@, b@);
            }
            return -1;
        }
        if i == b_len {
            proof {
                lemma_str_lt_at(b@, a@, i as int);
                lemma_str_lt_asym(b@, a@);
            }
            return 1;
        }
        let ca = a.get_char(i);
        let cb = b.get_char(i);
        if (ca as u32) < (cb as u32) {
            proof {
                lemma_str_lt_at(a@, b@, i as int);
                lemma_str_lt_asym(a@, b@);
            }
            return -1;
        }
        if (cb as u32) < (ca as u32) {
            proof {
                lemma_str_lt_at(b@, a@, i as int);
                lemma_str_lt_asym(b@, a@);
            }
            return 1;
        }
        proof {
            vstd::utf8::char_u32_cast(ca, ca as u32);
            vstd::utf8::char_u32_cast(cb, cb as u32);
            assert(ca as u32 == cb as u32);
            assert(ca == cb);
        }
        i = i + 1;
    }
}

/// Equal sequences are not ordered either way.
proof fn lemma_str_lt_asym_total(a: Seq<char>, b: Seq<char>)
    requires
        a == b,
    ensures
        !str_lt(a, b),
        !str_lt(b, a),
{
    if str_lt(a, b) {
        lemma_str_lt_asym(a, b);
    }
    if str_lt(b, a) {
        lemma_str_lt_asym(b, a);
    }
}

} // verus!
