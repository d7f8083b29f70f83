use crate::files::{after_inserts, inserted, key_of, valid_groups, MappedContract};
use vstd::prelude::*;

verus! {

/// Two contracts whose artifact paths are equal once lowercased target one file: inserted
/// into an empty container, they form a single destination whose list holds both, in the
/// order inserted.
pub proof fn lemma_same_lowercase_path_collides<'a, C>(
    a: MappedContract<'a, C>,
    b: MappedContract<'a, C>,
)
    requires
        key_of(a) == key_of(b),
    ensures
        inserted(inserted(Map::empty(), a), b) == map![key_of(a) => seq![a, b]],
{
    assert(inserted(Map::empty(), a) =~= map![key_of(a) => seq![a]]);
    assert(seq![a].push(b) =~= seq![a, b]);
    assert(inserted(inserted(Map::empty(), a), b) =~= map![key_of(a) => seq![a, b]]);
}

/// Two contracts whose artifact paths differ once lowercased target two files: inserted
/// into an empty container, each forms a destination of its own with a list of one.
pub proof fn lemma_different_lowercase_paths_stay_apart<'a, C>(
    a: MappedContract<'a, C>,
    b: MappedContract<'a, C>,
)
    requires
        key_of(a) != key_of(b),
    ensures
        inserted(inserted(Map::empty(), a), b) == map![key_of(a) => seq![a], key_of(b) => seq![b]],
{
    assert(inserted(Map::empty(), a) =~= map![key_of(a) => seq![a]]);
    assert(inserted(inserted(Map::empty(), a), b) =~= map![key_of(a) => seq![a], key_of(b) => seq![b]]);
}

/// Inserting is purely additive and keeps the groups valid: after any sequence of inserts
/// no destination has an empty list, and every list present before still begins the list
/// of its destination.
pub proof fn lemma_inserts_keep_groups_valid<'a, C>(
    m: Map<Seq<char>, Seq<MappedContract<'a, C>>>,
    es: Seq<MappedContract<'a, C>>,
)
    requires
        valid_groups(m),
    ensures
        valid_groups(after_inserts(m, es)),
        forall|k: Seq<char>| #[trigger]
            m.contains_key(k) ==> after_inserts(m, es).contains_key(k) && m[k].len()
                <= after_inserts(m, es)[k].len() && after_inserts(
                m,
                es,
            )[k].subrange(0, m[k].len() as int) == m[k],
    decreases es.len(),
{
    if es.len() > 0 {
        let p = after_inserts(m, es.drop_last());
        lemma_inserts_keep_groups_valid(m, es.drop_last());
        let e = es.last();
        let r = inserted(p, e);
        assert forall|k: Seq<char>| #[trigger] r.contains_key(k) implies r[k].len() > 0 && forall|
            j: int,
        | 0 <= j < r[k].len() ==> key_of(#[trigger] r[k][j]) == k by {
            if k == key_of(e) && p.contains_key(k) {
                assert forall|j: int| 0 <= j < r[k].len() implies key_of(#[trigger] r[k][j]) == k by {
                    if j < p[k].len() {
                        assert(r[k][j] == p[k][j]);
                    }
                }
            }
        }
        assert forall|k: Seq<char>| #[trigger] m.contains_key(k) implies r.contains_key(k)
            && m[k].len() <= r[k].len() && r[k].subrange(0, m[k].len() as int) == m[k] by {
            assert(p[k].subrange(0, m[k].len() as int) == m[k]);
            if k == key_of(e) {
                assert(r[k].subrange(0, m[k].len() as int) =~= p[k].subrange(0, m[k].len() as int));
            }
        }
    }
}

/// Contracts whose destinations are pairwise distinct each get a destination of their own:
/// inserted into an empty container, as `with_capacity` makes one whatever its capacity,
/// they give exactly their destinations, each with a list holding that contract alone.
pub proof fn lemma_distinct_paths_single_lists<'a, C>(es: Seq<MappedContract<'a, C>>)
    requires
        forall|i: int, j: int|
            0 <= i < j < es.len() ==> key_of(#[trigger] es[i]) != key_of(#[trigger] es[j]),
    ensures
        forall|k: Seq<char>| #[trigger]
            after_inserts(Map::empty(), es).contains_key(k) <==> exists|i: int|
                0 <= i < es.len() && key_of(#[trigger] es[i]) == k,
        forall|i: int|
            0 <= i < es.len() ==> after_inserts(Map::empty(), es)[key_of(#[trigger] es[i])]
                == seq![es[i]],
    decreases es.len(),
{
    if es.len() > 0 {
        let t = es.drop_last();
        let e = es.last();
        let n = es.len() - 1;
        assert forall|i: int, j: int| 0 <= i < j < t.len() implies key_of(#[trigger] t[i]) != key_of(
            #[trigger] t[j],
        ) by {
            assert(t[i] == es[i] && t[j] == es[j]);
        }
        lemma_distinct_paths_single_lists(t);
        let p = after_inserts(Map::empty(), t);
        let r = after_inserts(Map::empty(), es);
        assert(e == es[n]);
        assert(!p.contains_key(key_of(e))) by {
            if p.contains_key(key_of(e)) {
                let i = choose|i: int| 0 <= i < t.len() && key_of(#[trigger] t[i]) == key_of(e);
                assert(t[i] == es[i]);
            }
        }
        assert(r == p.insert(key_of(e), seq![e]));
        assert forall|k: Seq<char>| #[trigger] r.contains_key(k) <==> exists|i: int|
            0 <= i < es.len() && key_of(#[trigger] es[i]) == k by {
            if r.contains_key(k) && k != key_of(e) {
                let i = choose|i: int| 0 <= i < t.len() && key_of(#[trigger] t[i]) == k;
                assert(t[i] == es[i]);
            }
            if exists|i: int| 0 <= i < es.len() && key_of(#[trigger] es[i]) == k {
                let i = choose|i: int| 0 <= i < es.len() && key_of(#[trigger] es[i]) == k;
                if i < n {
                    assert(t[i] == es[i]);
                }
            }
        }
        assert forall|i: int| 0 <= i < es.len() implies r[key_of(#[trigger] es[i])] == seq![es[i]] by {
            if i < n {
                assert(t[i] == es[i]);
                assert(key_of(es[i]) != key_of(e));
            }
        }
    }
}

} // verus!
