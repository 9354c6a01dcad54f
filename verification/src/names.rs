use vstd::prelude::*;

verus! {

/// The names among the first `n` of `names`.
pub open spec fn names_among(names: Seq<String>, n: int) -> Set<Seq<char>> {
    Set::new(|name: Seq<char>| exists|m: int| 0 <= m < n && m < names.len() && names[m]@ == name)
}

/// The names in `names`.
pub open spec fn names_of(names: Seq<String>) -> Set<Seq<char>> {
    names_among(names, names.len() as int)
}

/// Whether no name occurs twice in `names`.
pub open spec fn are_distinct(names: Seq<String>) -> bool {
    forall|i: int, j: int| 0 <= i < j < names.len() ==> names[i]@ != names[j]@
}

/// The first `n` of `keys`.
pub open spec fn first_keys(keys: Seq<Seq<char>>, n: int) -> Set<Seq<char>> {
    Set::new(|key: Seq<char>| exists|j: int| 0 <= j < n && j < keys.len() && keys[j] == key)
}

/// Pushing a name adds it to the names.
pub proof fn lemma_names_of_push(names: Seq<String>, name: String)
    ensures
        names_of(names.push(name)) == names_of(names).insert(name@),
{
    let longer = names.push(name);
    assert forall|other: Seq<char>| names_of(longer).contains(other) == names_of(names).insert(
        name@,
    ).contains(other) by {
        if names_of(longer).contains(other) {
            let m = choose|m: int| 0 <= m < longer.len() && longer[m]@ == other;
            if m < names.len() {
                assert(names[m]@ == other);
            }
        }
        if names_of(names).contains(other) {
            let m = choose|m: int| 0 <= m < names.len() && names[m]@ == other;
            assert(longer[m]@ == other);
        }
        if other == name@ {
            assert(longer[names.len() as int]@ == other);
        }
    }
    assert(names_of(longer) =~= names_of(names).insert(name@));
}

/// The first `n + 1` keys are the first `n` and the key at `n`, which is not among
/// the first `n` if no key occurs twice.
pub proof fn lemma_first_keys_step(keys: Seq<Seq<char>>, n: int)
    requires
        0 <= n < keys.len(),
    ensures
        first_keys(keys, 0) == Set::<Seq<char>>::empty(),
        first_keys(keys, n + 1) == first_keys(keys, n).insert(keys[n]),
        keys.no_duplicates() ==> !first_keys(keys, n).contains(keys[n]),
{
    assert(first_keys(keys, 0) =~= Set::<Seq<char>>::empty());
    assert forall|key: Seq<char>| first_keys(keys, n + 1).contains(key) == first_keys(
        keys,
        n,
    ).insert(keys[n]).contains(key) by {
        if first_keys(keys, n + 1).contains(key) {
            let j = choose|j: int| 0 <= j < n + 1 && j < keys.len() && keys[j] == key;
            if j < n {
                assert(first_keys(keys, n).contains(key));
            }
        }
        if first_keys(keys, n).contains(key) {
            let j = choose|j: int| 0 <= j < n && j < keys.len() && keys[j] == key;
            assert(0 <= j < n + 1);
        }
    }
    assert(first_keys(keys, n + 1) =~= first_keys(keys, n).insert(keys[n]));
    if keys.no_duplicates() && first_keys(keys, n).contains(keys[n]) {
        let j = choose|j: int| 0 <= j < n && j < keys.len() && keys[j] == keys[n];
        assert(keys[j] != keys[n]);
    }
}

} // verus!
