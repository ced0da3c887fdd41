//! Reconciling the seed list of names with a stored pool.
//!
//! The entity with id `k` is the `k`-th seed name, taken from the stored
//! pool when it holds that name and made fresh otherwise; stored entities
//! whose names left the seed list follow, in stored order, with the next ids.

use vstd::prelude::*;

verus! {

/// Where the entity with a given id comes from.
#[derive(Clone, Copy, Debug, PartialEq, Eq, Structural)]
pub enum Source {
    /// The stored entity at this index.
    Stored(usize),
    /// A new entity named after its seed name.
    Fresh,
}

/// The names of a list of strings.
pub open spec fn names(v: Seq<String>) -> Seq<Seq<char>> {
    v.map_values(|s: String| s@)
}

/// The first index of `name` in `names`, if any.
pub open spec fn first_index(names: Seq<Seq<char>>, name: Seq<char>, j: int) -> Option<usize>
    decreases j,
{
    if j <= 0 {
        None
    } else {
        match first_index(names, name, j - 1) {
            Some(i) => Some(i),
            None => if names[j - 1] == name {
                Some((j - 1) as usize)
            } else {
                None
            },
        }
    }
}

/// The indices below `j` of stored names that are not seed names, in order.
pub open spec fn extras(seed: Seq<Seq<char>>, stored: Seq<Seq<char>>, j: int) -> Seq<usize>
    decreases j,
{
    if j <= 0 {
        Seq::empty()
    } else if seed.contains(stored[j - 1]) {
        extras(seed, stored, j - 1)
    } else {
        extras(seed, stored, j - 1).push((j - 1) as usize)
    }
}

/// The source of every id after reconciling `seed` with `stored`.
pub open spec fn reconciled(seed: Seq<Seq<char>>, stored: Seq<Seq<char>>) -> Seq<Source> {
    Seq::new(
        seed.len(),
        |k: int|
            match first_index(stored, seed[k], stored.len() as int) {
                Some(j) => Source::Stored(j),
                None => Source::Fresh,
            },
    ) + extras(seed, stored, stored.len() as int).map_values(|j: usize| Source::Stored(j))
}

proof fn lemma_first_index_stable(names: Seq<Seq<char>>, name: Seq<char>, j: int, k: int)
    requires
        j <= k,
        first_index(names, name, j) is Some,
    ensures
        first_index(names, name, k) == first_index(names, name, j),
    decreases k - j,
{
    if j < k {
        lemma_first_index_stable(names, name, j, k - 1);
    }
}

proof fn lemma_first_index(names: Seq<Seq<char>>, name: Seq<char>, j: int)
    requires
        0 <= j <= names.len(),
        names.len() <= usize::MAX,
    ensures
        first_index(names, name, j) matches Some(i) ==> i < j && names[i as int] == name,
        first_index(names, name, j) is None ==> forall|q: int| 0 <= q < j ==> names[q] != name,
    decreases j,
{
    if j > 0 {
        lemma_first_index(names, name, j - 1);
    }
}

/// The index of the first string of `v` equal to `name`.
fn find(v: &Vec<String>, name: &String) -> (r: Option<usize>)
    ensures
        r == first_index(names(v@), name@, v@.len() as int),
{
    let mut j: usize = 0;
    while j < v.len()
        invariant
            j <= v@.len(),
            first_index(names(v@), name@, j as int) is None,
        decreases v@.len() - j,
    {
        if v[j] == *name {
            proof {
                assert(names(v@)[j as int] == name@);
                lemma_first_index_stable(names(v@), name@, j + 1, v@.len() as int);
            }
            return Some(j);
        }
        j += 1;
    }
    None
}

/// Where each entity of the reconciled pool comes from, by id: first one
/// entry per seed name, then the stored entities that no seed name matches.
pub fn reconcile(seed: &Vec<String>, stored: &Vec<String>) -> (r: Vec<Source>)
    ensures
        r@ == reconciled(names(seed@), names(stored@)),
{
    let ghost sd = names(seed@);
    let ghost st = names(stored@);
    let mut r: Vec<Source> = Vec::new();
    let mut k: usize = 0;
    while k < seed.len()
        invariant
            k <= seed@.len(),
            sd == names(seed@),
            st == names(stored@),
            r@ == reconciled(sd, st).subrange(0, k as int),
        decreases seed@.len() - k,
    {
        let src = match find(stored, &seed[k]) {
            Some(j) => Source::Stored(j),
            None => Source::Fresh,
        };
        r.push(src);
        k += 1;
        assert(r@ =~= reconciled(sd, st).subrange(0, k as int));
    }
    let ns = seed.len();
    let mut j: usize = 0;
    while j < stored.len()
        invariant
            j <= stored@.len(),
            ns == seed@.len(),
            sd == names(seed@),
            st == names(stored@),
            r@ == reconciled(sd, st).subrange(0, seed@.len() as int) + extras(sd, st, j as int).map_values(
                |i: usize| Source::Stored(i),
            ),
        decreases stored@.len() - j,
    {
        let found = find(seed, &stored[j]);
        proof {
            assert(sd.len() == seed@.len());
            lemma_first_index(sd, st[j as int], sd.len() as int);
            if sd.contains(st[j as int]) {
                let q = choose|q: int| 0 <= q < sd.len() && sd[q] == st[j as int];
                assert(sd[q] == st[j as int]);
            }
        }
        if found.is_none() {
            r.push(Source::Stored(j));
        }
        j += 1;
        assert(r@ =~= reconciled(sd, st).subrange(0, seed@.len() as int) + extras(sd, st, j as int).map_values(
            |i: usize| Source::Stored(i),
        ));
    }
    assert(reconciled(sd, st) =~= reconciled(sd, st).subrange(0, seed@.len() as int) + extras(
        sd,
        st,
        stored@.len() as int,
    ).map_values(|i: usize| Source::Stored(i)));
    r
}

/// The first id below `k` whose entity is the stored entity `j`.
pub open spec fn first_source(sources: Seq<Source>, j: usize, k: int) -> Option<usize>
    decreases k,
{
    if k <= 0 {
        None
    } else {
        match first_source(sources, j, k - 1) {
            Some(i) => Some(i),
            None => if sources[k - 1] == Source::Stored(j) {
                Some((k - 1) as usize)
            } else {
                None
            },
        }
    }
}

/// The new id of each of the `n_stored` stored entities (the stored pool
/// lists entity `j` at index `j`), or `None` for one that was not kept.
pub fn new_ids(sources: &Vec<Source>, n_stored: usize) -> (r: Vec<Option<usize>>)
    ensures
        r@.len() == n_stored,
        forall|j: int|
            0 <= j < n_stored ==> #[trigger] r@[j] == first_source(
                sources@,
                j as usize,
                sources@.len() as int,
            ),
{
    let mut r: Vec<Option<usize>> = Vec::new();
    while r.len() < n_stored
        invariant
            r@.len() <= n_stored,
            forall|j: int| 0 <= j < r@.len() ==> #[trigger] r@[j] is None,
        decreases n_stored - r.len(),
    {
        r.push(None);
    }
    let mut k: usize = 0;
    while k < sources.len()
        invariant
            k <= sources@.len(),
            r@.len() == n_stored,
            forall|j: int|
                0 <= j < n_stored ==> #[trigger] r@[j] == first_source(
                    sources@,
                    j as usize,
                    k as int,
                ),
        decreases sources@.len() - k,
    {
        if let Source::Stored(j) = sources[k] {
            if j < n_stored && r[j].is_none() {
                r.set(j, Some(k));
            }
        }
        k += 1;
    }
    r
}

} // verus!
