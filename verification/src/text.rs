//! Ordering of keys and tags: the lexicographic order of their characters,
//! which is the order in which Rust ranks `str` values.

use vstd::prelude::*;

verus! {

/// `a` comes strictly before `b` in lexicographic character order.
pub open spec fn text_lt(a: Seq<char>, b: Seq<char>) -> bool
    decreases a.len(),
{
    if a.len() == 0 {
        b.len() > 0
    } else if b.len() == 0 {
        false
    } else if a[0] != b[0] {
        a[0] < b[0]
    } else {
        text_lt(a.drop_first(), b.drop_first())
    }
}

/// No text comes before itself.
pub proof fn lemma_text_lt_irreflexive(a: Seq<char>)
    ensures
        !text_lt(a, a),
    decreases a.len(),
{
    if a.len() > 0 {
        lemma_text_lt_irreflexive(a.drop_first());
    }
}

/// Of two different texts, exactly one comes before the other.
pub proof fn lemma_text_lt_total(a: Seq<char>, b: Seq<char>)
    ensures
        a != b ==> (text_lt(a, b) || text_lt(b, a)),
        !(text_lt(a, b) && text_lt(b, a)),
    decreases a.len(),
{
    if a.len() > 0 && b.len() > 0 {
        if a[0] == b[0] {
            lemma_text_lt_total(a.drop_first(), b.drop_first());
            if a.drop_first() == b.drop_first() {
                assert(a =~= seq![a[0]] + a.drop_first());
                assert(b =~= seq![b[0]] + b.drop_first());
            }
        } else {
            assert(a[0] != b[0]);
        }
    } else if a.len() == 0 && b.len() == 0 {
        assert(a =~= b);
    }
}

/// The order is transitive.
pub proof fn lemma_text_lt_transitive(a: Seq<char>, b: Seq<char>, c: Seq<char>)
    requires
        text_lt(a, b),
        text_lt(b, c),
    ensures
        text_lt(a, c),
    decreases a.len(),
{
    if a.len() > 0 && b.len() > 0 && c.len() > 0 {
        if a[0] == b[0] && b[0] == c[0] {
            lemma_text_lt_transitive(a.drop_first(), b.drop_first(), c.drop_first());
        }
    }
}

/// The outcome of comparing two texts.
#[derive(PartialEq, Eq, Structural, Clone, Copy, Debug)]
pub enum TextOrder {
    Before,
    Same,
    After,
}

/// Compares two texts character by character.
pub fn compare_text(a: &str, b: &str) -> (r: TextOrder)
    ensures
        (r == TextOrder::Before) <==> text_lt(a@, b@),
        (r == TextOrder::Same) <==> a@ == b@,
        (r == TextOrder::After) <==> text_lt(b@, a@),
{
    proof {
        lemma_text_lt_total(a@, b@);
        lemma_text_lt_irreflexive(a@);
    }
    let mut ia = a.chars();
    let mut ib = b.chars();
    let ghost ra: Seq<char> = a@;
    let ghost rb: Seq<char> = b@;
    loop
        invariant
            vstd::std_specs::iter::IteratorSpec::remaining(&ia) == ra,
            vstd::std_specs::iter::IteratorSpec::remaining(&ib) == rb,
            vstd::std_specs::iter::IteratorSpec::obeys_prophetic_iter_laws(&ia),
            vstd::std_specs::iter::IteratorSpec::obeys_prophetic_iter_laws(&ib),
            text_lt(a@, b@) == text_lt(ra, rb),
            text_lt(b@, a@) == text_lt(rb, ra),
            (a@ == b@) == (ra == rb),
        decreases ra.len(),
    {
        let na = ia.next();
        let nb = ib.next();
        match (na, nb) {
            (None, None) => {
                assert(ra =~= rb);
                return TextOrder::Same;
            },
            (None, Some(_)) => {
                return TextOrder::Before;
            },
            (Some(_), None) => {
                return TextOrder::After;
            },
            (Some(ca), Some(cb)) => {
                if ca < cb {
                    return TextOrder::Before;
                } else if cb < ca {
                    return TextOrder::After;
                }
                proof {
                    assert(ra =~= seq![ca] + ra.drop_first());
                    assert(rb =~= seq![cb] + rb.drop_first());
                    if ra.drop_first() == rb.drop_first() {
                        assert(ra =~= rb);
                    }
                    ra = ra.drop_first();
                    rb = rb.drop_first();
                }
            },
        }
    }
}

} // verus!
