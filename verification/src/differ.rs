use crate::names::{are_distinct, first_keys, lemma_first_keys_step, lemma_names_of_push, names_of};
use crate::secret::{Secret, SecretStatus, SecretView};
use crate::secret_types::AutoSecretType;
use crate::string_map::StringMap;
use vstd::prelude::*;

verus! {

/// The entries to remove: those that have a tag and are not declared.
pub open spec fn to_remove(declared: Map<Seq<char>, AutoSecretType>, actual: SecretView) -> Set<
    Seq<char>,
> {
    actual.to_remove(declared.dom())
}

/// The entries to write: those declared for which no tag is stored, or a tag other
/// than that of the declared kind.
pub open spec fn to_write(declared: Map<Seq<char>, AutoSecretType>, actual: SecretView) -> Set<
    Seq<char>,
> {
    Set::new(
        |name: Seq<char>|
            declared.contains_key(name) && actual.status(name, declared[name])
                != SecretStatus::Matches,
    )
}

/// The entries to leave alone: those declared whose stored tag is that of the
/// declared kind.
pub open spec fn unchanged(declared: Map<Seq<char>, AutoSecretType>, actual: SecretView) -> Set<
    Seq<char>,
> {
    Set::new(
        |name: Seq<char>|
            declared.contains_key(name) && actual.status(name, declared[name])
                == SecretStatus::Matches,
    )
}

/// The entries to write among those in `done`.
pub open spec fn written(
    declared: Map<Seq<char>, AutoSecretType>,
    before: SecretView,
    done: Set<Seq<char>>,
) -> Set<Seq<char>> {
    Set::new(|name: Seq<char>| done.contains(name) && to_write(declared, before).contains(name))
}

/// The entries to leave alone among those in `done`.
pub open spec fn skipped(
    declared: Map<Seq<char>, AutoSecretType>,
    before: SecretView,
    done: Set<Seq<char>>,
) -> Set<Seq<char>> {
    Set::new(|name: Seq<char>| done.contains(name) && unchanged(declared, before).contains(name))
}

/// The outcome of comparing what is declared with what is stored: the names of the
/// entries to remove, to write and to leave alone.
#[derive(Clone, Debug)]
pub struct Diff {
    pub to_remove: Vec<String>,
    pub to_write: Vec<String>,
    pub unchanged: Vec<String>,
}

/// Compares what is declared with what is stored, and changes nothing.
///
/// An entry is to remove if it has a tag and is not declared; a declared entry is to
/// write if its tag is missing or is not the tag of the declared kind, and is left
/// alone otherwise. Each list holds each of its names once.
pub fn diff(declared: &StringMap<AutoSecretType>, actual: &Secret) -> (d: Diff)
    ensures
        names_of(d.to_remove@) == to_remove(declared@, actual@),
        names_of(d.to_write@) == to_write(declared@, actual@),
        names_of(d.unchanged@) == unchanged(declared@, actual@),
        are_distinct(d.to_remove@),
        are_distinct(d.to_write@),
        are_distinct(d.unchanged@),
{
    let stale = actual.entries_to_remove(declared);
    let mut stays: Vec<String> = Vec::new();
    let mut changes: Vec<String> = Vec::new();
    let ghost keys = declared.key_seq();
    let count: usize = declared.len();
    let mut i: usize = 0;
    proof {
        assert(first_keys(keys, 0) =~= Set::<Seq<char>>::empty());
        assert(names_of(changes@) =~= written(declared@, actual@, first_keys(keys, 0)));
        assert(names_of(stays@) =~= skipped(declared@, actual@, first_keys(keys, 0)));
    }
    while i < count
        invariant
            i <= count,
            count == keys.len(),
            keys == declared.key_seq(),
            declared.keys_describe_view(),
            are_distinct(changes@),
            are_distinct(stays@),
            names_of(changes@) == written(declared@, actual@, first_keys(keys, i as int)),
            names_of(stays@) == skipped(declared@, actual@, first_keys(keys, i as int)),
        decreases count - i,
    {
        let name = declared.key(i);
        let kind = declared.value(i);
        let ghost done = first_keys(keys, i as int);
        let ghost before_changes = changes@;
        let ghost before_stays = stays@;
        proof {
            lemma_first_keys_step(keys, i as int);
        }
        match actual.secret_status(name.as_str(), kind) {
            SecretStatus::Matches => {
                let copy = name.clone();
                proof {
                    lemma_names_of_push(before_stays, copy);
                    assert forall|m: int| 0 <= m < before_stays.len() implies before_stays[m]@
                        != copy@ by {
                        assert(names_of(before_stays).contains(before_stays[m]@));
                    }
                }
                stays.push(copy);
            },
            _ => {
                let copy = name.clone();
                proof {
                    lemma_names_of_push(before_changes, copy);
                    assert forall|m: int| 0 <= m < before_changes.len() implies before_changes[m]@
                        != copy@ by {
                        assert(names_of(before_changes).contains(before_changes[m]@));
                    }
                }
                changes.push(copy);
            },
        }
        proof {
            assert(names_of(changes@) =~= written(declared@, actual@, done.insert(name@)));
            assert(names_of(stays@) =~= skipped(declared@, actual@, done.insert(name@)));
        }
        i += 1;
    }
    proof {
        assert forall|key: Seq<char>| declared@.dom().contains(key) implies first_keys(
            keys,
            count as int,
        ).contains(key) by {
            assert(keys.to_set().contains(key));
        }
        assert(names_of(changes@) =~= to_write(declared@, actual@));
        assert(names_of(stays@) =~= unchanged(declared@, actual@));
    }
    Diff { to_remove: stale, to_write: changes, unchanged: stays }
}

} // verus!
