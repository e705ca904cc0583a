//! Ordering names byte by byte, as file systems list them.

use crate::strmap::texts;
use vstd::prelude::*;
use vstd::utf8::encode_utf8;

verus! {

/// Lexicographic order on byte sequences: a proper prefix comes first.
pub open spec fn lex_le(a: Seq<u8>, b: Seq<u8>) -> bool
    decreases a.len(),
{
    if a.len() == 0 {
        true
    } else if b.len() == 0 {
        false
    } else if a[0] != b[0] {
        a[0] < b[0]
    } else {
        lex_le(a.drop_first(), b.drop_first())
    }
}

/// The order of names: that of their UTF-8 bytes.
pub open spec fn name_le(a: Seq<char>, b: Seq<char>) -> bool {
    lex_le(encode_utf8(a), encode_utf8(b))
}

/// Whether each name is at most every later one.
pub open spec fn sorted(names: Seq<Seq<char>>) -> bool {
    forall|i: int, j: int| 0 <= i < j < names.len() ==> name_le(names[i], names[j])
}

/// Of two byte sequences one is at most the other.
pub proof fn lemma_lex_total(a: Seq<u8>, b: Seq<u8>)
    ensures
        lex_le(a, b) || lex_le(b, a),
    decreases a.len(),
{
    if a.len() > 0 && b.len() > 0 && a[0] == b[0] {
        lemma_lex_total(a.drop_first(), b.drop_first());
    }
}

/// The order is transitive.
pub proof fn lemma_lex_trans(a: Seq<u8>, b: Seq<u8>, c: Seq<u8>)
    requires
        lex_le(a, b),
        lex_le(b, c),
    ensures
        lex_le(a, c),
    decreases a.len(),
{
    if a.len() > 0 && b.len() > 0 && c.len() > 0 && a[0] == b[0] && b[0] == c[0] {
        lemma_lex_trans(a.drop_first(), b.drop_first(), c.drop_first());
    }
}

/// Whether `a` is at most `b` in lexicographic order.
pub fn bytes_le(a: &[u8], b: &[u8]) -> (r: bool)
    ensures
        r == lex_le(a@, b@),
{
    let mut i: usize = 0;
    proof {
        assert(a@.subrange(0, a@.len() as int) =~= a@);
        assert(b@.subrange(0, b@.len() as int) =~= b@);
    }
    while i < a.len() && i < b.len()
        invariant
            i <= a@.len(),
            i <= b@.len(),
            lex_le(a@, b@) == lex_le(
                a@.subrange(i as int, a@.len() as int),
                b@.subrange(i as int, b@.len() as int),
            ),
        decreases a@.len() - i,
    {
        let ghost rest_a = a@.subrange(i as int, a@.len() as int);
        let ghost rest_b = b@.subrange(i as int, b@.len() as int);
        proof {
            assert(rest_a[0] == a@[i as int]);
            assert(rest_b[0] == b@[i as int]);
            assert(rest_a.drop_first() =~= a@.subrange(i + 1, a@.len() as int));
            assert(rest_b.drop_first() =~= b@.subrange(i + 1, b@.len() as int));
        }
        if a[i] != b[i] {
            return a[i] < b[i];
        }
        i = i + 1;
    }
    i >= a.len()
}

/// The names in ascending order.
pub fn sort_names(names: &Vec<String>) -> (r: Vec<String>)
    ensures
        sorted(texts(r@)),
        texts(r@).to_multiset() == texts(names@).to_multiset(),
{
    let mut out: Vec<String> = Vec::new();
    let mut i: usize = 0;
    proof {
        assert(texts(out@) =~= Seq::<Seq<char>>::empty());
        assert(texts(names@).subrange(0, 0) =~= Seq::<Seq<char>>::empty());
    }
    while i < names.len()
        invariant
            i <= names@.len(),
            sorted(texts(out@)),
            texts(out@).to_multiset() == texts(names@).subrange(0, i as int).to_multiset(),
        decreases names@.len() - i,
    {
        let name = names[i].clone();
        let ghost before = out@;
        // The first position whose name comes after the new one.
        let mut at: usize = 0;
        let mut found = false;
        while at < out.len() && !found
            invariant
                at <= out@.len(),
                forall|k: int| 0 <= k < at ==> name_le(#[trigger] texts(out@)[k], name@),
                found ==> at < out@.len() && !name_le(texts(out@)[at as int], name@),
            decreases out@.len() - at + (if found { 0int } else { 1int }),
        {
            assert(texts(out@)[at as int] == out@[at as int]@);
            if bytes_le(out[at].as_str().as_bytes(), name.as_str().as_bytes()) {
                at = at + 1;
            } else {
                found = true;
            }
        }
        out.insert(at, name);
        proof {
            let old_names = texts(before);
            let new_names = texts(out@);
            assert(new_names =~= old_names.insert(at as int, name@));
            assert forall|a: int, b: int| 0 <= a < b < new_names.len() implies name_le(
                new_names[a],
                new_names[b],
            ) by {
                if b < at {
                    assert(new_names[a] == old_names[a] && new_names[b] == old_names[b]);
                } else if b == at {
                    assert(new_names[a] == old_names[a]);
                } else if a == at {
                    // The name at the insertion point comes after the new one.
                    let next = old_names[at as int];
                    lemma_lex_total(encode_utf8(next), encode_utf8(name@));
                    assert(new_names[b] == old_names[b - 1]);
                    if b - 1 > at {
                        assert(name_le(old_names[at as int], old_names[b - 1]));
                        lemma_lex_trans(
                            encode_utf8(name@),
                            encode_utf8(next),
                            encode_utf8(old_names[b - 1]),
                        );
                    }
                } else if a < at {
                    assert(new_names[a] == old_names[a] && new_names[b] == old_names[b - 1]);
                } else {
                    assert(new_names[a] == old_names[a - 1] && new_names[b] == old_names[b - 1]);
                }
            }
            // One more name, and otherwise the same ones.
            let all = texts(names@);
            assert(new_names.remove(at as int) =~= old_names);
            vstd::seq_lib::to_multiset_remove(new_names, at as int);
            new_names.to_multiset_ensures();
            assert(new_names.contains(name@)) by {
                assert(new_names[at as int] == name@);
            }
            assert(new_names.to_multiset() =~= old_names.to_multiset().insert(name@));
            assert(all[i as int] == name@);
            assert(all.subrange(0, i + 1) =~= all.subrange(0, i as int).push(name@));
            vstd::seq_lib::to_multiset_build(all.subrange(0, i as int), name@);
        }
        i = i + 1;
    }
    proof {
        assert(texts(names@).subrange(0, i as int) =~= texts(names@));
    }
    out
}

} // verus!
