use crate::key::{lower_of, MappedArtifactFile};
use vstd::prelude::*;

verus! {

/// One contract mapped to the artifact file it is written to.
///
/// The source file, contract name and compiled contract are borrowed from the caller's
/// collection of contracts; the artifact path is owned and keeps its original casing.
pub struct MappedContract<'a, C> {
    pub file: &'a str,
    pub name: &'a str,
    pub contract: &'a C,
    pub artifact_path: String,
}

/// The normalized destination of a mapped contract.
pub open spec fn key_of<'a, C>(e: MappedContract<'a, C>) -> Seq<char> {
    lower_of(e.artifact_path@)
}

/// The groups after `e` is appended to the list of its destination, which is created
/// when absent.
pub open spec fn inserted<'a, C>(
    m: Map<Seq<char>, Seq<MappedContract<'a, C>>>,
    e: MappedContract<'a, C>,
) -> Map<Seq<char>, Seq<MappedContract<'a, C>>> {
    let k = key_of(e);
    if m.contains_key(k) {
        m.insert(k, m[k].push(e))
    } else {
        m.insert(k, seq![e])
    }
}

/// The groups after each of `es` is inserted, in order.
pub open spec fn after_inserts<'a, C>(
    m: Map<Seq<char>, Seq<MappedContract<'a, C>>>,
    es: Seq<MappedContract<'a, C>>,
) -> Map<Seq<char>, Seq<MappedContract<'a, C>>>
    decreases es.len(),
{
    if es.len() == 0 {
        m
    } else {
        inserted(after_inserts(m, es.drop_last()), es.last())
    }
}

/// Every destination holds at least one contract, and every contract is held under the
/// destination its own artifact path normalizes to.
pub open spec fn valid_groups<'a, C>(m: Map<Seq<char>, Seq<MappedContract<'a, C>>>) -> bool {
    forall|k: Seq<char>|
        #[trigger] m.contains_key(k) ==> m[k].len() > 0 && forall|j: int|
            0 <= j < m[k].len() ==> key_of(#[trigger] m[k][j]) == k
}

/// The groups held by a sequence of (destination, list) pairs.
spec fn groups_map<'a, C>(s: Seq<(MappedArtifactFile, Vec<MappedContract<'a, C>>)>) -> Map<
    Seq<char>,
    Seq<MappedContract<'a, C>>,
> {
    Map::new(
        |k: Seq<char>| exists|i: int| 0 <= i < s.len() && (#[trigger] s[i]).0@ == k,
        |k: Seq<char>| s[choose|i: int| 0 <= i < s.len() && (#[trigger] s[i]).0@ == k].1@,
    )
}

spec fn unique_keys<'a, C>(s: Seq<(MappedArtifactFile, Vec<MappedContract<'a, C>>)>) -> bool {
    forall|i: int, j: int| 0 <= i < s.len() && 0 <= j < s.len() && i != j ==> s[i].0@ != s[j].0@
}

proof fn lemma_lookup<'a, C>(s: Seq<(MappedArtifactFile, Vec<MappedContract<'a, C>>)>, i: int)
    requires
        unique_keys(s),
        0 <= i < s.len(),
    ensures
        groups_map(s).contains_key(s[i].0@),
        groups_map(s)[s[i].0@] == s[i].1@,
{
    let k = s[i].0@;
    assert(0 <= i < s.len() && s[i].0@ == k);
    let j = choose|j: int| 0 <= j < s.len() && (#[trigger] s[j]).0@ == k;
    assert(j == i);
}

proof fn lemma_update<'a, C>(
    s: Seq<(MappedArtifactFile, Vec<MappedContract<'a, C>>)>,
    i: int,
    p: (MappedArtifactFile, Vec<MappedContract<'a, C>>),
)
    requires
        unique_keys(s),
        0 <= i < s.len(),
        p.0@ == s[i].0@,
    ensures
        unique_keys(s.update(i, p)),
        groups_map(s.update(i, p)) == groups_map(s).insert(p.0@, p.1@),
{
    let t = s.update(i, p);
    let a = groups_map(t);
    let b = groups_map(s).insert(p.0@, p.1@);
    assert(t[i].0@ == p.0@);
    assert forall|k: Seq<char>| a.contains_key(k) == b.contains_key(k) by {
        if a.contains_key(k) {
            let j = choose|j: int| 0 <= j < t.len() && (#[trigger] t[j]).0@ == k;
            if j != i {
                assert(s[j].0@ == k);
            }
        }
        if b.contains_key(k) && k != p.0@ {
            let j = choose|j: int| 0 <= j < s.len() && (#[trigger] s[j]).0@ == k;
            assert(t[j].0@ == k);
        }
    }
    assert forall|k: Seq<char>| #[trigger] a.contains_key(k) implies a[k] == b[k] by {
        let j = choose|j: int| 0 <= j < t.len() && (#[trigger] t[j]).0@ == k;
        lemma_lookup(t, j);
        if j != i {
            lemma_lookup(s, j);
        }
    }
    assert(a =~= b);
}

proof fn lemma_push<'a, C>(
    s: Seq<(MappedArtifactFile, Vec<MappedContract<'a, C>>)>,
    p: (MappedArtifactFile, Vec<MappedContract<'a, C>>),
)
    requires
        unique_keys(s),
        forall|i: int| 0 <= i < s.len() ==> (#[trigger] s[i]).0@ != p.0@,
    ensures
        unique_keys(s.push(p)),
        groups_map(s.push(p)) == groups_map(s).insert(p.0@, p.1@),
{
    let t = s.push(p);
    let a = groups_map(t);
    let b = groups_map(s).insert(p.0@, p.1@);
    assert(t[s.len() as int] == p);
    assert forall|k: Seq<char>| a.contains_key(k) == b.contains_key(k) by {
        if a.contains_key(k) {
            let j = choose|j: int| 0 <= j < t.len() && (#[trigger] t[j]).0@ == k;
            if j < s.len() {
                assert(s[j].0@ == k);
            }
        }
        if b.contains_key(k) && k != p.0@ {
            let j = choose|j: int| 0 <= j < s.len() && (#[trigger] s[j]).0@ == k;
            assert(t[j].0@ == k);
        }
    }
    assert forall|k: Seq<char>| #[trigger] a.contains_key(k) implies a[k] == b[k] by {
        let j = choose|j: int| 0 <= j < t.len() && (#[trigger] t[j]).0@ == k;
        lemma_lookup(t, j);
        if j < s.len() {
            lemma_lookup(s, j);
        }
    }
    assert(a =~= b);
}

proof fn lemma_remove<'a, C>(s: Seq<(MappedArtifactFile, Vec<MappedContract<'a, C>>)>, i: int)
    requires
        unique_keys(s),
        0 <= i < s.len(),
    ensures
        unique_keys(s.remove(i)),
        groups_map(s.remove(i)) == groups_map(s).remove(s[i].0@),
{
    let t = s.remove(i);
    let a = groups_map(t);
    let b = groups_map(s).remove(s[i].0@);
    assert forall|x: int, y: int|
        0 <= x < t.len() && 0 <= y < t.len() && x != y implies t[x].0@ != t[y].0@ by {
        let xs = if x < i { x } else { x + 1 };
        let ys = if y < i { y } else { y + 1 };
        assert(t[x] == s[xs] && t[y] == s[ys]);
    }
    assert forall|k: Seq<char>| a.contains_key(k) == b.contains_key(k) by {
        if a.contains_key(k) {
            let j = choose|j: int| 0 <= j < t.len() && (#[trigger] t[j]).0@ == k;
            let js = if j < i { j } else { j + 1 };
            assert(s[js].0@ == k);
        }
        if b.contains_key(k) {
            let j = choose|j: int| 0 <= j < s.len() && (#[trigger] s[j]).0@ == k;
            let jt = if j < i { j } else { j - 1 };
            assert(t[jt].0@ == k);
        }
    }
    assert forall|k: Seq<char>| #[trigger] a.contains_key(k) implies a[k] == b[k] by {
        let j = choose|j: int| 0 <= j < t.len() && (#[trigger] t[j]).0@ == k;
        let js = if j < i { j } else { j + 1 };
        assert(t[j] == s[js]);
        lemma_lookup(t, j);
        lemma_lookup(s, js);
    }
    assert(a =~= b);
}

proof fn lemma_dom_len<'a, C>(s: Seq<(MappedArtifactFile, Vec<MappedContract<'a, C>>)>)
    requires
        unique_keys(s),
    ensures
        groups_map(s).dom().finite(),
        groups_map(s).dom().len() == s.len(),
    decreases s.len(),
{
    if s.len() == 0 {
        assert(groups_map(s) =~= Map::<Seq<char>, Seq<MappedContract<'a, C>>>::empty());
    } else {
        let t = s.drop_last();
        assert(unique_keys(t));
        lemma_dom_len(t);
        assert forall|i: int| 0 <= i < t.len() implies (#[trigger] t[i]).0@ != s.last().0@ by {
            assert(t[i] == s[i]);
        }
        lemma_push(t, s.last());
        assert(t.push(s.last()) == s);
        assert(!groups_map(t).contains_key(s.last().0@));
    }
}

/// All contracts of a build, grouped by the artifact file they are written to.
///
/// Each destination holds a non-empty list of contracts in the order they were inserted.
/// A list of more than one contract is a naming conflict: different contracts target the
/// same output file. Finding and resolving conflicts is left to the caller.
pub struct MappedArtifactFiles<'a, C> {
    files: Vec<(MappedArtifactFile, Vec<MappedContract<'a, C>>)>,
}

impl<'a, C> View for MappedArtifactFiles<'a, C> {
    type V = Map<Seq<char>, Seq<MappedContract<'a, C>>>;

    /// Each normalized destination, mapped to its contracts in insertion order.
    closed spec fn view(&self) -> Map<Seq<char>, Seq<MappedContract<'a, C>>> {
        groups_map(self.files@)
    }
}

impl<'a, C> MappedArtifactFiles<'a, C> {
    /// The container's invariant: destinations are unique, and its groups are valid.
    pub closed spec fn wf(&self) -> bool {
        &&& unique_keys(self.files@)
        &&& forall|i: int| 0 <= i < self.files@.len() ==> (#[trigger] self.files@[i]).1@.len() > 0
        &&& forall|i: int, j: int|
            0 <= i < self.files@.len() && 0 <= j < self.files@[i].1@.len() ==> key_of(
                #[trigger] self.files@[i].1@[j],
            ) == self.files@[i].0@
    }

    /// Every state the container reaches holds valid groups: no destination with an empty
    /// list, and each contract under the destination its own path normalizes to.
    pub proof fn lemma_wf_valid(&self)
        requires
            self.wf(),
        ensures
            valid_groups(self@),
    {
        assert forall|k: Seq<char>| #[trigger] self@.contains_key(k) implies self@[k].len() > 0
            && forall|j: int| 0 <= j < self@[k].len() ==> key_of(#[trigger] self@[k][j]) == k by {
            let i = choose|i: int| 0 <= i < self.files@.len() && (#[trigger] self.files@[i]).0@ == k;
            lemma_lookup(self.files@, i);
            assert forall|j: int| 0 <= j < self@[k].len() implies key_of(#[trigger] self@[k][j])
                == k by {
                assert(self@[k][j] == self.files@[i].1@[j]);
            }
        }
    }

    /// An empty container with room for `len` destinations. The capacity is a hint only.
    pub fn with_capacity(len: usize) -> (r: Self)
        ensures
            r.wf(),
            r@ == Map::<Seq<char>, Seq<MappedContract<'a, C>>>::empty(),
    {
        let r = MappedArtifactFiles { files: Vec::with_capacity(len) };
        assert(r@ =~= Map::<Seq<char>, Seq<MappedContract<'a, C>>>::empty());
        r
    }

    /// The position of `key` among the destinations, if it is there.
    fn position(&self, key: &MappedArtifactFile) -> (r: Option<usize>)
        ensures
            match r {
                Some(i) => i < self.files@.len() && self.files@[i as int].0@ == key@,
                None => forall|i: int| 0 <= i < self.files@.len() ==> (#[trigger] self.files@[i]).0@ != key@,
            },
    {
        let mut i: usize = 0;
        while i < self.files.len()
            invariant
                i <= self.files@.len(),
                forall|j: int| 0 <= j < i ==> (#[trigger] self.files@[j]).0@ != key@,
            decreases self.files@.len() - i,
        {
            if self.files[i].0.same_file(key) {
                return Some(i);
            }
            i = i + 1;
        }
        None
    }

    /// Appends `entry` to the list of the destination its artifact path normalizes to,
    /// creating that list when absent. Nothing is ever removed or merged.
    pub fn insert(&mut self, entry: MappedContract<'a, C>)
        requires
            old(self).wf(),
        ensures
            final(self).wf(),
            final(self)@ == inserted(old(self)@, entry),
    {
        let key = MappedArtifactFile::new(entry.artifact_path.as_str());
        match self.position(&key) {
            Some(i) => {
                proof {
                    lemma_lookup(self.files@, i as int);
                    assert(key_of(entry) == key@);
                    assert(old(self)@.contains_key(key@));
                }
                let ghost s = self.files@;
                self.files[i].1.push(entry);
                proof {
                    assert(self.files@ == s.update(i as int, self.files@[i as int]));
                    assert(self.files@[i as int].1@ == s[i as int].1@.push(entry));
                    lemma_update(s, i as int, self.files@[i as int]);
                    assert forall|x: int, j: int|
                        0 <= x < self.files@.len() && 0 <= j < self.files@[x].1@.len() implies key_of(
                        #[trigger] self.files@[x].1@[j],
                    ) == self.files@[x].0@ by {
                        if x != i {
                            assert(self.files@[x] == s[x]);
                        } else if j < s[x].1@.len() {
                            assert(self.files@[x].1@[j] == s[x].1@[j]);
                        }
                    }
                }
            },
            None => {
                let ghost s = self.files@;
                assert(key_of(entry) == key@);
                assert(!old(self)@.contains_key(key@));
                self.files.push((key, vec![entry]));
                proof {
                    assert(self.files@.last().1@ =~= seq![entry]);
                    lemma_push(s, self.files@.last());
                    assert(self.files@ == s.push(self.files@.last()));
                    assert forall|x: int, j: int|
                        0 <= x < self.files@.len() && 0 <= j < self.files@[x].1@.len() implies key_of(
                        #[trigger] self.files@[x].1@[j],
                    ) == self.files@[x].0@ by {
                        if x < s.len() {
                            assert(self.files@[x] == s[x]);
                        }
                    }
                }
            },
        }
    }

    /// The contracts that target `key`, in insertion order.
    pub fn get(&self, key: &MappedArtifactFile) -> (r: Option<&Vec<MappedContract<'a, C>>>)
        requires
            self.wf(),
        ensures
            match r {
                Some(l) => self@.contains_key(key@) && l@ == self@[key@],
                None => !self@.contains_key(key@),
            },
    {
        match self.position(key) {
            Some(i) => {
                proof {
                    lemma_lookup(self.files@, i as int);
                }
                Some(&self.files[i].1)
            },
            None => None,
        }
    }

    /// Whether any contract targets `key`.
    pub fn contains_key(&self, key: &MappedArtifactFile) -> (r: bool)
        requires
            self.wf(),
        ensures
            r == self@.contains_key(key@),
    {
        self.get(key).is_some()
    }

    /// Takes out the destination `key` with its contracts, returning them if it was there.
    pub fn remove(&mut self, key: &MappedArtifactFile) -> (r: Option<Vec<MappedContract<'a, C>>>)
        requires
            old(self).wf(),
        ensures
            final(self).wf(),
            final(self)@ == old(self)@.remove(key@),
            match r {
                Some(l) => old(self)@.contains_key(key@) && l@ == old(self)@[key@],
                None => !old(self)@.contains_key(key@),
            },
    {
        match self.position(key) {
            Some(i) => {
                let ghost s = self.files@;
                proof {
                    lemma_lookup(s, i as int);
                    lemma_remove(s, i as int);
                }
                let (_, l) = self.files.remove(i);
                proof {
                    assert forall|x: int, j: int|
                        0 <= x < self.files@.len() && 0 <= j < self.files@[x].1@.len() implies key_of(
                        #[trigger] self.files@[x].1@[j],
                    ) == self.files@[x].0@ by {
                        let xs = if x < i { x } else { x + 1 };
                        assert(self.files@[x] == s[xs]);
                    }
                    assert forall|x: int| 0 <= x < self.files@.len() implies (
                    #[trigger] self.files@[x]).1@.len() > 0 by {
                        let xs = if x < i { x } else { x + 1 };
                        assert(self.files@[x] == s[xs]);
                    }
                }
                Some(l)
            },
            None => {
                proof {
                    assert(self@ =~= old(self)@.remove(key@));
                }
                None
            },
        }
    }

    /// The number of destinations.
    pub fn len(&self) -> (r: usize)
        requires
            self.wf(),
        ensures
            r == self@.dom().len(),
    {
        proof {
            lemma_dom_len(self.files@);
        }
        self.files.len()
    }

    /// The destination at position `i` of the traversal order, with its contracts.
    pub fn group_at(&self, i: usize) -> (r: (&MappedArtifactFile, &Vec<MappedContract<'a, C>>))
        requires
            self.wf(),
            i < self@.dom().len(),
        ensures
            r.0@ == self.key_at(i as int),
            self@.contains_key(r.0@),
            r.1@ == self@[r.0@],
    {
        proof {
            lemma_dom_len(self.files@);
            lemma_lookup(self.files@, i as int);
        }
        (&self.files[i].0, &self.files[i].1)
    }

    /// The destination at position `i` of the traversal order.
    pub closed spec fn key_at(&self, i: int) -> Seq<char> {
        self.files@[i].0@
    }

    /// Positions `0 .. len()` visit every destination exactly once.
    pub proof fn lemma_traversal(&self)
        requires
            self.wf(),
        ensures
            forall|i: int, j: int|
                0 <= i < j < self@.dom().len() ==> self.key_at(i) != self.key_at(j),
            forall|k: Seq<char>| #[trigger]
                self@.contains_key(k) <==> exists|i: int|
                    0 <= i < self@.dom().len() && self.key_at(i) == k,
    {
        lemma_dom_len(self.files@);
        assert forall|k: Seq<char>| #[trigger] self@.contains_key(k) implies exists|i: int|
            0 <= i < self@.dom().len() && self.key_at(i) == k by {
            let i = choose|i: int| 0 <= i < self.files@.len() && (#[trigger] self.files@[i]).0@ == k;
            assert(self.key_at(i) == k);
        }
        assert forall|k: Seq<char>| (exists|i: int|
            0 <= i < self@.dom().len() && self.key_at(i) == k) implies #[trigger] self@.contains_key(k) by {
            let i = choose|i: int| 0 <= i < self@.dom().len() && self.key_at(i) == k;
            lemma_lookup(self.files@, i);
        }
    }
}

} // verus!
