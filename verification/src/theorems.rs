use crate::hashing::tag_of;
use crate::differ::{to_remove, to_write, unchanged};
use crate::reconciler::{is_value_of_kind, managed_tags, reconciled, starting_state};
use crate::secret::{
    annotation_key, is_managed_key, lemma_annotation_key, OwnerReferenceView, SecretStatus,
    SecretView,
};
use crate::secret_types::AutoSecretType;
use vstd::prelude::*;

verus! {

/// The three sets of the comparison do not overlap, and every declared entry is
/// either to write or to leave alone.
pub proof fn lemma_comparison_sorts_every_entry(
    declared: Map<Seq<char>, AutoSecretType>,
    actual: SecretView,
)
    ensures
        to_remove(declared, actual).disjoint(to_write(declared, actual)),
        to_remove(declared, actual).disjoint(unchanged(declared, actual)),
        to_write(declared, actual).disjoint(unchanged(declared, actual)),
        to_write(declared, actual).union(unchanged(declared, actual)) == declared.dom(),
{
    assert(to_write(declared, actual).union(unchanged(declared, actual)) =~= declared.dom());
}

/// A declared entry whose stored tag is the tag of its kind is neither to write nor
/// to remove.
pub proof fn lemma_matching_entry_is_left_alone(
    declared: Map<Seq<char>, AutoSecretType>,
    actual: SecretView,
    name: Seq<char>,
)
    requires
        declared.contains_key(name),
        actual.status(name, declared[name]) == SecretStatus::Matches,
    ensures
        !to_write(declared, actual).contains(name),
        !to_remove(declared, actual).contains(name),
        unchanged(declared, actual).contains(name),
{
}

/// After a pass nothing is left to do: no entry is to remove and none to write.
pub proof fn lemma_pass_converges(
    declared: Map<Seq<char>, AutoSecretType>,
    before: SecretView,
    after: SecretView,
)
    requires
        reconciled(declared, before, after),
    ensures
        to_remove(declared, after) == Set::<Seq<char>>::empty(),
        to_write(declared, after) == Set::<Seq<char>>::empty(),
        unchanged(declared, after) == declared.dom(),
{
    assert forall|name: Seq<char>|
        after.is_managed(name) == declared.contains_key(name) && (declared.contains_key(name)
            ==> after.status(name, declared[name]) == SecretStatus::Matches) by {
        lemma_annotation_key(name, annotation_key(name));
    }
    assert(to_remove(declared, after) =~= Set::<Seq<char>>::empty());
    assert(to_write(declared, after) =~= Set::<Seq<char>>::empty());
    assert(unchanged(declared, after) =~= declared.dom());
}

/// A second pass over the same declaration changes nothing: what it makes of the
/// result of the first pass is that result.
pub proof fn lemma_second_pass_changes_nothing(
    declared: Map<Seq<char>, AutoSecretType>,
    first: SecretView,
    second: SecretView,
    third: SecretView,
)
    requires
        reconciled(declared, first, second),
        reconciled(declared, second, third),
    ensures
        third == second,
{
    lemma_pass_converges(declared, first, second);
    assert(third.annotations =~= second.annotations);
    assert forall|name: Seq<char>| #[trigger]
        third.data.contains_key(name) == second.data.contains_key(name) by {
        assert(!to_write(declared, second).contains(name));
        assert(!to_remove(declared, second).contains(name));
    }
    assert forall|name: Seq<char>| #[trigger] third.data.contains_key(name) implies third.data[name]
        == second.data[name] by {
        assert(!to_write(declared, second).contains(name));
    }
    assert(third.data =~= second.data);
    assert(third =~= second);
}

/// What a pass that started from a starting state hands to the store is itself the
/// starting state of the next pass, if the store hands it back as it was written.
pub proof fn lemma_result_is_a_starting_state(
    declared: Map<Seq<char>, AutoSecretType>,
    namespace: Seq<char>,
    name: Seq<char>,
    owner: OwnerReferenceView,
    existing: Option<SecretView>,
    after: SecretView,
)
    requires
        reconciled(declared, starting_state(namespace, name, owner, existing), after),
    ensures
        starting_state(namespace, name, owner, Some(after)) == after,
        forall|key: Seq<char>| after.annotations.contains_key(key) ==> is_managed_key(key),
{
    let before = starting_state(namespace, name, owner, existing);
    assert forall|key: Seq<char>| after.annotations.contains_key(key) implies is_managed_key(
        key,
    ) by {
        if !is_managed_key(key) {
            assert(before.annotations.contains_key(key));
        }
    }
    assert(managed_tags(after.annotations) =~= after.annotations);
    assert(starting_state(namespace, name, owner, Some(after)) =~= after);
}

/// Two passes in a row over an unchanged declaration, the store handing the second
/// what the first has written: the second writes what the first wrote.
pub proof fn lemma_repeated_pass_is_idle(
    declared: Map<Seq<char>, AutoSecretType>,
    namespace: Seq<char>,
    name: Seq<char>,
    owner: OwnerReferenceView,
    existing: Option<SecretView>,
    first: SecretView,
    second: SecretView,
)
    requires
        reconciled(declared, starting_state(namespace, name, owner, existing), first),
        reconciled(declared, starting_state(namespace, name, owner, Some(first)), second),
    ensures
        second == first,
{
    let start = starting_state(namespace, name, owner, existing);
    lemma_result_is_a_starting_state(declared, namespace, name, owner, existing, first);
    lemma_second_pass_changes_nothing(declared, start, first, second);
}

/// A pass leaves every tag without the prefix as it was, and every value that has
/// no tag and is not declared, whatever is declared.
pub proof fn lemma_foreign_pairs_are_kept(
    declared: Map<Seq<char>, AutoSecretType>,
    before: SecretView,
    after: SecretView,
)
    requires
        reconciled(declared, before, after),
    ensures
        forall|key: Seq<char>|
            !is_managed_key(key) ==> (#[trigger] after.annotations.contains_key(key)
                == before.annotations.contains_key(key)),
        forall|key: Seq<char>|
            !is_managed_key(key) && before.annotations.contains_key(key)
                ==> #[trigger] after.annotations[key] == before.annotations[key],
        forall|name: Seq<char>|
            !before.is_managed(name) && !declared.contains_key(name) ==> (
            #[trigger] after.data.contains_key(name) == before.data.contains_key(name)),
        forall|name: Seq<char>|
            !before.is_managed(name) && !declared.contains_key(name) && before.data.contains_key(
                name,
            ) ==> #[trigger] after.data[name] == before.data[name],
{
    assert forall|name: Seq<char>|
        !before.is_managed(name) && !declared.contains_key(name) implies (
    #[trigger] after.data.contains_key(name) == before.data.contains_key(name)) by {
        assert(!to_write(declared, before).contains(name));
        assert(!to_remove(declared, before).contains(name));
    }
    assert forall|name: Seq<char>|
        !before.is_managed(name) && !declared.contains_key(name) && before.data.contains_key(
            name,
        ) implies #[trigger] after.data[name] == before.data[name] by {
        assert(after.data.contains_key(name));
        assert(!to_write(declared, before).contains(name));
    }
}

/// Where an entry's stored tag is that of one kind and the entry is now declared with
/// a kind that has another tag, the entry is to write, and the pass stores the new
/// kind's tag and a value of the new kind.
pub proof fn lemma_kind_change_regenerates(
    declared: Map<Seq<char>, AutoSecretType>,
    before: SecretView,
    after: SecretView,
    name: Seq<char>,
    earlier: AutoSecretType,
)
    requires
        before.status(name, earlier) == SecretStatus::Matches,
        declared.contains_key(name),
        tag_of(declared[name]) != tag_of(earlier),
        reconciled(declared, before, after),
    ensures
        before.status(name, declared[name]) == SecretStatus::Outdated,
        to_write(declared, before).contains(name),
        after.annotations.contains_key(annotation_key(name)),
        after.annotations[annotation_key(name)] == tag_of(declared[name]),
        after.data.contains_key(name),
        is_value_of_kind(declared[name], after.data[name]),
{
    lemma_annotation_key(name, annotation_key(name));
    assert(to_write(declared, before).contains(name));
    assert(after.data.contains_key(name));
}

/// Where an entry that has a tag is no longer declared, the pass removes its tag and
/// its value, and leaves the tag and the value of every declared entry whose tag
/// matches exactly as they were.
pub proof fn lemma_removal_is_exact(
    declared: Map<Seq<char>, AutoSecretType>,
    before: SecretView,
    after: SecretView,
    gone: Seq<char>,
)
    requires
        before.is_managed(gone),
        !declared.contains_key(gone),
        reconciled(declared, before, after),
    ensures
        !after.annotations.contains_key(annotation_key(gone)),
        !after.data.contains_key(gone),
        forall|kept: Seq<char>|
            declared.contains_key(kept) && before.status(kept, declared[kept])
                == SecretStatus::Matches ==> {
                &&& #[trigger] after.annotations.contains_key(annotation_key(kept))
                &&& after.annotations[annotation_key(kept)] == before.annotations[annotation_key(
                    kept,
                )]
                &&& after.data.contains_key(kept) == before.data.contains_key(kept)
                &&& before.data.contains_key(kept) ==> after.data[kept] == before.data[kept]
            },
{
    lemma_annotation_key(gone, annotation_key(gone));
    assert(to_remove(declared, before).contains(gone));
    assert(!to_write(declared, before).contains(gone));
    assert forall|kept: Seq<char>|
        declared.contains_key(kept) && before.status(kept, declared[kept])
            == SecretStatus::Matches implies {
        &&& #[trigger] after.annotations.contains_key(annotation_key(kept))
        &&& after.annotations[annotation_key(kept)] == before.annotations[annotation_key(kept)]
        &&& after.data.contains_key(kept) == before.data.contains_key(kept)
        &&& before.data.contains_key(kept) ==> after.data[kept] == before.data[kept]
    } by {
        lemma_annotation_key(kept, annotation_key(kept));
        assert(!to_write(declared, before).contains(kept));
        assert(!to_remove(declared, before).contains(kept));
        if before.data.contains_key(kept) {
            assert(after.data.contains_key(kept));
        }
    }
}

/// A secret in which every entry with a tag has a value stays so when entries are
/// removed and when an entry is set; a secret without tags is so; and the starting
/// state is so if the stored secret is.
pub proof fn lemma_steps_keep_values_for_tags(
    secret: SecretView,
    names: Set<Seq<char>>,
    name: Seq<char>,
    kind: AutoSecretType,
    value: Seq<u8>,
    owner: OwnerReferenceView,
)
    ensures
        secret.tags_have_values() ==> secret.without(names).tags_have_values(),
        secret.tags_have_values() ==> secret.with_secret(name, kind, value).tags_have_values(),
        secret.tags_have_values() ==> starting_state(
            secret.namespace,
            secret.name,
            owner,
            Some(secret),
        ).tags_have_values(),
        starting_state(secret.namespace, secret.name, owner, None).tags_have_values(),
{
    if secret.tags_have_values() {
        let removed = secret.without(names);
        assert forall|other: Seq<char>| #[trigger] removed.is_managed(other) implies removed.data.contains_key(
            other,
        ) by {
            lemma_annotation_key(other, annotation_key(other));
            assert(secret.is_managed(other));
        }
        let set = secret.with_secret(name, kind, value);
        assert forall|other: Seq<char>| #[trigger] set.is_managed(other) implies set.data.contains_key(
            other,
        ) by {
            lemma_annotation_key(other, annotation_key(name));
            lemma_annotation_key(name, annotation_key(name));
            if other != name {
                assert(secret.is_managed(other));
            }
        }
        let start = starting_state(secret.namespace, secret.name, owner, Some(secret));
        assert forall|other: Seq<char>| #[trigger] start.is_managed(other) implies start.data.contains_key(
            other,
        ) by {
            assert(secret.is_managed(other));
        }
    }
}

/// Where every entry with a tag had a value before a pass, every entry with a tag
/// has a value after it; and after the pass the entries with a tag are the declared
/// ones.
pub proof fn lemma_tags_and_values_agree(
    declared: Map<Seq<char>, AutoSecretType>,
    before: SecretView,
    after: SecretView,
)
    requires
        reconciled(declared, before, after),
    ensures
        forall|name: Seq<char>| #[trigger] after.is_managed(name) == declared.contains_key(name),
        before.tags_have_values() ==> after.tags_have_values(),
{
    assert forall|name: Seq<char>| #[trigger] after.is_managed(name) == declared.contains_key(
        name,
    ) by {
        lemma_annotation_key(name, annotation_key(name));
    }
    if before.tags_have_values() {
        assert forall|name: Seq<char>| #[trigger] after.is_managed(name) implies after.data.contains_key(
            name,
        ) by {
            lemma_annotation_key(name, annotation_key(name));
            if !to_write(declared, before).contains(name) {
                assert(before.is_managed(name));
                assert(before.data.contains_key(name));
                assert(!to_remove(declared, before).contains(name));
            }
        }
    }
}

} // verus!
