//! Lexicographic order on text, as `String`'s `Ord` gives it.
use std::cmp::Ordering;
use vstd::prelude::*;

verus! {

/// Strict lexicographic order on character sequences, characters compared by scalar value.
pub open spec fn text_lt(a: Seq<char>, b: Seq<char>) -> bool
    decreases a.len(),
{
    if a.len() == 0 {
        b.len() > 0
    } else if b.len() == 0 {
        false
    } else if a[0] != b[0] {
        (a[0] as int) < (b[0] as int)
    } else {
        text_lt(a.drop_first(), b.drop_first())
    }
}

pub proof fn lemma_text_lt_irreflexive(a: Seq<char>)
    ensures
        !text_lt(a, a),
    decreases a.len(),
{
    if a.len() > 0 {
        lemma_text_lt_irreflexive(a.drop_first());
    }
}

pub proof fn lemma_text_lt_transitive(a: Seq<char>, b: Seq<char>, c: Seq<char>)
    requires
        text_lt(a, b),
        text_lt(b, c),
    ensures
        text_lt(a, c),
    decreases a.len(),
{
    if a.len() > 0 && b.len() > 0 && c.len() > 0 && a[0] == b[0] && b[0] == c[0] {
        lemma_text_lt_transitive(a.drop_first(), b.drop_first(), c.drop_first());
    }
}

/// A sequence of keys in strictly increasing order.
pub open spec fn strictly_ascending(keys: Seq<Seq<char>>) -> bool {
    forall|i: int, j: int| 0 <= i < j < keys.len() ==> text_lt(keys[i], keys[j])
}

/// Relies on `Ord for String`: strings compare lexicographically by their UTF-8
/// bytes, which orders them as `text_lt` orders their characters.
#[verifier::external_body]
pub(crate) fn compare_text(a: &String, b: &String) -> (r: Ordering)
    ensures
        (r == Ordering::Less) == text_lt(a@, b@),
        (r == Ordering::Equal) == (a@ == b@),
        (r == Ordering::Greater) == text_lt(b@, a@),
{
    a.cmp(b)
}

pub open spec fn texts_view(v: Seq<String>) -> Seq<Seq<char>> {
    v.map_values(|t: String| t@)
}

/// Adds `t` to a strictly ascending sequence of texts, unless it is already there.
pub fn insert_text(set: &mut Vec<String>, t: String)
    requires
        strictly_ascending(texts_view(old(set)@)),
    ensures
        strictly_ascending(texts_view(final(set)@)),
        texts_view(final(set)@).to_set() == texts_view(old(set)@).to_set().insert(t@),
{
    let ghost s0 = texts_view(set@);
    let mut i: usize = 0;
    let mut found = false;
    let mut done = false;
    while i < set.len() && !done
        invariant
            s0 == texts_view(set@),
            strictly_ascending(s0),
            i <= set@.len(),
            forall|k: int| 0 <= k < i ==> text_lt(#[trigger] s0[k], t@),
            done ==> i < set@.len(),
            done && found ==> s0[i as int] == t@,
            done && !found ==> text_lt(t@, s0[i as int]),
            !done ==> !found,
        decreases set@.len() - i, if done { 0int } else { 1int },
    {
        match compare_text(&set[i], &t) {
            Ordering::Less => {
                i = i + 1;
            },
            Ordering::Equal => {
                found = true;
                done = true;
            },
            Ordering::Greater => {
                done = true;
            },
        }
    }
    if found {
        proof {
            assert(s0.to_set() =~= s0.to_set().insert(t@)) by {
                assert(s0.to_set().contains(s0[i as int]));
            }
        }
        return;
    }
    proof {
        assert forall|k: int| i <= k < s0.len() implies text_lt(t@, #[trigger] s0[k]) by {
            if k > i {
                lemma_text_lt_transitive(t@, s0[i as int], s0[k]);
            }
        }
    }
    set.insert(i, t);
    proof {
        let s1 = texts_view(set@);
        assert(s1 =~= s0.insert(i as int, t@));
        assert forall|a: int, b: int| 0 <= a < b < s1.len() implies text_lt(
            #[trigger] s1[a],
            #[trigger] s1[b],
        ) by {
            if a < i && b > i {
                lemma_text_lt_transitive(s1[a], t@, s1[b]);
            }
        }
        assert(s1.to_set() =~= s0.to_set().insert(t@)) by {
            assert forall|x: Seq<char>| s1.to_set().contains(x) implies s0.to_set().insert(
                t@,
            ).contains(x) by {
                let k = choose|k: int| 0 <= k < s1.len() && s1[k] == x;
                if k < i {
                    assert(s0[k] == x);
                } else if k > i {
                    assert(s0[k - 1] == x);
                }
            }
            assert forall|x: Seq<char>| s0.to_set().insert(t@).contains(x) implies s1.to_set().contains(
                x,
            ) by {
                if x != t@ {
                    let k = choose|k: int| 0 <= k < s0.len() && s0[k] == x;
                    if k < i {
                        assert(s1[k] == x);
                    } else {
                        assert(s1[k + 1] == x);
                    }
                } else {
                    assert(s1[i as int] == x);
                }
            }
        }
    }
}

} // verus!
