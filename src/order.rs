//! The total order on migration identifiers: lexicographic by character.
use vstd::prelude::*;

verus! {

/// `a` sorts strictly before `b`: the first differing character is smaller,
/// or `a` is a proper prefix of `b`.
pub open spec fn id_lt(a: Seq<char>, b: Seq<char>) -> bool
    decreases a.len(),
{
    if b.len() == 0 {
        false
    } else if a.len() == 0 {
        true
    } else if a[0] == b[0] {
        id_lt(a.drop_first(), b.drop_first())
    } else {
        (a[0] as int) < (b[0] as int)
    }
}

pub open spec fn id_le(a: Seq<char>, b: Seq<char>) -> bool {
    id_lt(a, b) || a == b
}

/// No identifier sorts before itself.
pub proof fn lemma_id_lt_irreflexive(a: Seq<char>)
    ensures
        !id_lt(a, a),
    decreases a.len(),
{
    if a.len() > 0 {
        lemma_id_lt_irreflexive(a.drop_first());
    }
}

/// The order is transitive.
pub proof fn lemma_id_lt_transitive(a: Seq<char>, b: Seq<char>, c: Seq<char>)
    requires
        id_lt(a, b),
        id_lt(b, c),
    ensures
        id_lt(a, c),
    decreases a.len(),
{
    if a.len() > 0 && a[0] == b[0] && b[0] == c[0] {
        lemma_id_lt_transitive(a.drop_first(), b.drop_first(), c.drop_first());
    }
}

/// Any two identifiers are equal or ordered one way or the other.
pub proof fn lemma_id_lt_total(a: Seq<char>, b: Seq<char>)
    ensures
        id_lt(a, b) || a == b || id_lt(b, a),
    decreases a.len(),
{
    if a.len() > 0 && b.len() > 0 && a[0] == b[0] {
        lemma_id_lt_total(a.drop_first(), b.drop_first());
        if a.drop_first() == b.drop_first() {
            assert(a =~= seq![a[0]] + a.drop_first());
            assert(b =~= seq![b[0]] + b.drop_first());
        }
    } else if a.len() == 0 && b.len() == 0 {
        assert(a =~= b);
    } else if a.len() > 0 && b.len() > 0 {
        assert((a[0] as int) != (b[0] as int));
    }
}

/// Of two distinct identifiers, exactly one sorts first.
pub proof fn lemma_id_lt_asymmetric(a: Seq<char>, b: Seq<char>)
    requires
        id_lt(a, b),
    ensures
        !id_lt(b, a),
        a != b,
{
    lemma_id_lt_irreflexive(a);
    if id_lt(b, a) {
        lemma_id_lt_transitive(a, b, a);
    }
}

/// Whether `a` sorts strictly before `b`.
pub fn id_less(a: &str, b: &str) -> (r: bool)
    ensures
        r == id_lt(a@, b@),
{
    let na = a.unicode_len();
    let nb = b.unicode_len();
    let mut i: usize = 0;
    assert(a@.skip(0) =~= a@);
    assert(b@.skip(0) =~= b@);
    while i < na && i < nb
        invariant
            na == a@.len(),
            nb == b@.len(),
            i <= na,
            i <= nb,
            id_lt(a@.skip(i as int), b@.skip(i as int)) == id_lt(a@, b@),
        decreases na - i,
    {
        let ca = a.get_char(i);
        let cb = b.get_char(i);
        proof {
            let sa = a@.skip(i as int);
            let sb = b@.skip(i as int);
            assert(sa.drop_first() =~= a@.skip(i + 1));
            assert(sb.drop_first() =~= b@.skip(i + 1));
        }
        if ca != cb {
            return (ca as u32) < (cb as u32);
        }
        i = i + 1;
    }
    i < nb
}

/// Whether `a` and `b` are the same identifier.
pub fn id_equal(a: &str, b: &str) -> (r: bool)
    ensures
        r == (a@ == b@),
{
    let na = a.unicode_len();
    let nb = b.unicode_len();
    if na != nb {
        return false;
    }
    let mut i: usize = 0;
    while i < na
        invariant
            na == a@.len(),
            nb == b@.len(),
            na == nb,
            i <= na,
            a@.take(i as int) == b@.take(i as int),
        decreases na - i,
    {
        if a.get_char(i) != b.get_char(i) {
            return false;
        }
        assert(a@.take(i + 1) =~= a@.take(i as int).push(a@[i as int]));
        assert(b@.take(i + 1) =~= b@.take(i as int).push(b@[i as int]));
        i = i + 1;
    }
    assert(a@ =~= a@.take(na as int));
    assert(b@ =~= b@.take(nb as int));
    true
}

} // verus!
