//! The order in which merged environment views are presented: names are
//! compared by the byte-lexicographic order of their UTF-8 encodings, which
//! coincides with comparing the characters by code point.

use vstd::prelude::*;

verus! {

broadcast use vstd::seq::group_seq_axioms;

use vstd::string::StringSliceAdditionalSpecFns;
use vstd::utf8::encode_utf8;
use vstd::utf8::encode_utf8_decode_utf8;

/// Byte-lexicographic "strictly less than" on byte sequences: the first
/// differing byte decides, and a strict prefix sorts before its extension.
pub open spec fn lex_lt(a: Seq<u8>, b: Seq<u8>) -> bool
    decreases a.len(),
{
    if b.len() == 0 {
        false
    } else if a.len() == 0 {
        true
    } else if a[0] != b[0] {
        a[0] < b[0]
    } else {
        lex_lt(a.skip(1), b.skip(1))
    }
}

/// Names are ordered by the byte-lexicographic order of their UTF-8 encodings.
pub open spec fn name_lt(a: Seq<char>, b: Seq<char>) -> bool {
    lex_lt(encode_utf8(a), encode_utf8(b))
}

pub proof fn lemma_lex_lt_irreflexive(a: Seq<u8>)
    ensures
        !lex_lt(a, a),
    decreases a.len(),
{
    if a.len() > 0 {
        lemma_lex_lt_irreflexive(a.skip(1));
    }
}

pub proof fn lemma_lex_lt_asymmetric(a: Seq<u8>, b: Seq<u8>)
    requires
        lex_lt(a, b),
    ensures
        !lex_lt(b, a),
    decreases a.len(),
{
    if a.len() > 0 && b.len() > 0 && a[0] == b[0] {
        lemma_lex_lt_asymmetric(a.skip(1), b.skip(1));
    }
}

pub proof fn lemma_lex_lt_transitive(a: Seq<u8>, b: Seq<u8>, c: Seq<u8>)
    requires
        lex_lt(a, b),
        lex_lt(b, c),
    ensures
        lex_lt(a, c),
    decreases a.len(),
{
    if a.len() > 0 && b.len() > 0 && c.len() > 0 && a[0] == b[0] && b[0] == c[0] {
        lemma_lex_lt_transitive(a.skip(1), b.skip(1), c.skip(1));
    }
}

pub proof fn lemma_lex_lt_connected(a: Seq<u8>, b: Seq<u8>)
    requires
        a != b,
    ensures
        lex_lt(a, b) || lex_lt(b, a),
    decreases a.len(),
{
    if a.len() == 0 {
        if b.len() == 0 {
            assert(a =~= b);
        }
        assert(lex_lt(a, b));
    } else if b.len() == 0 {
        assert(lex_lt(b, a));
    } else if a[0] != b[0] {
        assert(lex_lt(a, b) == (a[0] < b[0]));
        assert(lex_lt(b, a) == (b[0] < a[0]));
    } else if a.skip(1) == b.skip(1) {
        assert(a.skip(1).len() == a.len() - 1);
        assert(b.skip(1).len() == b.len() - 1);
        assert(a.len() == b.len());
        assert forall|i: int| 0 <= i < a.len() implies a[i] == b[i] by {
            if i > 0 {
                assert(a[i] == a.skip(1)[i - 1]);
                assert(b[i] == b.skip(1)[i - 1]);
            }
        }
        assert(a =~= b);
    } else {
        lemma_lex_lt_connected(a.skip(1), b.skip(1));
        assert(lex_lt(a, b) == lex_lt(a.skip(1), b.skip(1)));
        assert(lex_lt(b, a) == lex_lt(b.skip(1), a.skip(1)));
    }
}

/// The UTF-8 encoding is injective: names with equal encodings are equal.
pub proof fn lemma_encode_utf8_injective(a: Seq<char>, b: Seq<char>)
    requires
        encode_utf8(a) == encode_utf8(b),
    ensures
        a == b,
{
    encode_utf8_decode_utf8(a);
    encode_utf8_decode_utf8(b);
}

/// `name_lt` is a strict total order on names.
pub proof fn lemma_name_lt_strict_total_order(a: Seq<char>, b: Seq<char>, c: Seq<char>)
    ensures
        !name_lt(a, a),
        name_lt(a, b) ==> !name_lt(b, a),
        name_lt(a, b) && name_lt(b, c) ==> name_lt(a, c),
        a != b ==> name_lt(a, b) || name_lt(b, a),
{
    lemma_lex_lt_irreflexive(encode_utf8(a));
    if name_lt(a, b) {
        lemma_lex_lt_asymmetric(encode_utf8(a), encode_utf8(b));
        if name_lt(b, c) {
            lemma_lex_lt_transitive(encode_utf8(a), encode_utf8(b), encode_utf8(c));
        }
    }
    if a != b {
        if encode_utf8(a) == encode_utf8(b) {
            lemma_encode_utf8_injective(a, b);
        }
        lemma_lex_lt_connected(encode_utf8(a), encode_utf8(b));
    }
}

proof fn lemma_lex_lt_skip_common_prefix(a: Seq<u8>, b: Seq<u8>, i: int)
    requires
        0 <= i <= a.len(),
        i <= b.len(),
        forall|k: int| 0 <= k < i ==> a[k] == b[k],
    ensures
        lex_lt(a, b) == lex_lt(a.skip(i), b.skip(i)),
    decreases i,
{
    if i == 0 {
        assert(a.skip(0) =~= a);
        assert(b.skip(0) =~= b);
    } else {
        assert(a.skip(1).skip(i - 1) =~= a.skip(i));
        assert(b.skip(1).skip(i - 1) =~= b.skip(i));
        lemma_lex_lt_skip_common_prefix(a.skip(1), b.skip(1), i - 1);
    }
}

/// Three-way comparison of two names, deciding the presentation order:
/// negative means `a` sorts strictly before `b`, zero means the names are
/// equal, positive means `a` sorts strictly after `b`.
pub fn str_cmp(a: &str, b: &str) -> (r: i8)
    ensures
        r == -1 || r == 0 || r == 1,
        (r == -1) == name_lt(a@, b@),
        (r == 0) == (a@ == b@),
        (r == 1) == name_lt(b@, a@),
{
    proof {
        assert(a.spec_bytes() == encode_utf8(a@));
        assert(b.spec_bytes() == encode_utf8(b@));
    }
    let ab = a.as_bytes();
    let bb = b.as_bytes();
    let alen = ab.len();
    let blen = bb.len();
    let mut i: usize = 0;
    while i < alen && i < blen
        invariant
            i <= alen,
            i <= blen,
            alen == ab@.len(),
            blen == bb@.len(),
            ab@ == a.spec_bytes(),
            bb@ == b.spec_bytes(),
            forall|k: int| 0 <= k < i ==> ab@[k] == bb@[k],
        decreases alen - i,
    {
        let x = ab[i];
        let y = bb[i];
        if x != y {
            proof {
                let sa = ab@.skip(i as int);
                let sb = bb@.skip(i as int);
                assert(sa[0] == ab@[i as int] && sb[0] == bb@[i as int]);
                lemma_lex_lt_skip_common_prefix(ab@, bb@, i as int);
                lemma_lex_lt_skip_common_prefix(bb@, ab@, i as int);
                assert(lex_lt(sa, sb) == (x < y));
                assert(lex_lt(sb, sa) == (y < x));
                if a@ == b@ {
                    assert(ab@ == bb@);
                }
            }
            if x < y {
                return -1;
            } else {
                return 1;
            }
        }
        i += 1;
    }
    proof {
        let sa = ab@.skip(i as int);
        let sb = bb@.skip(i as int);
        lemma_lex_lt_skip_common_prefix(ab@, bb@, i as int);
        lemma_lex_lt_skip_common_prefix(bb@, ab@, i as int);
        if alen == blen {
            assert(ab@ =~= bb@);
            lemma_encode_utf8_injective(a@, b@);
            lemma_lex_lt_irreflexive(ab@);
        } else {
            if a@ == b@ {
                assert(ab@ == bb@);
            }
            if alen < blen {
                assert(sa.len() == 0 && sb.len() > 0);
                assert(lex_lt(sa, sb) && !lex_lt(sb, sa));
            } else {
                assert(sb.len() == 0 && sa.len() > 0);
                assert(lex_lt(sb, sa) && !lex_lt(sa, sb));
            }
        }
    }
    if alen == blen {
        0
    } else if alen < blen {
        -1
    } else {
        1
    }
}

} // verus!
