use crate::controller::{Action, ControllerError};
use crate::differ::{to_remove, to_write, written};
use crate::hashing::tag_of;
use crate::names::{first_keys, lemma_first_keys_step, names_among};
use crate::resource::{is_missing_key, AutoSecret};
use crate::secret::{
    annotation_key, entry_name, is_managed_key, lemma_annotation_key, managed_entry_name,
    OwnerReference, OwnerReferenceView, Secret, SecretStatus, SecretView,
};
use crate::secret_types::AutoSecretType;
use crate::string_map::StringMap;
use vstd::prelude::*;
use vstd::utf8::encode_utf8;

verus! {

/// The tags that carry the prefix, out of `tags`.
pub open spec fn managed_tags(tags: Map<Seq<char>, Seq<char>>) -> Map<Seq<char>, Seq<char>> {
    Map::new(
        |key: Seq<char>| tags.contains_key(key) && is_managed_key(key),
        |key: Seq<char>| tags[key],
    )
}

/// A stored secret as plain values, if there is one.
pub open spec fn view_of(existing: Option<Secret>) -> Option<SecretView> {
    match existing {
        Some(secret) => Some(secret@),
        None => None,
    }
}

/// The secret that a pass starts from. It bears the object's namespace and name and
/// is owned by `owner` alone. Where the store holds a secret, it has the stored
/// values and those stored tags that carry the prefix; where the store holds none,
/// it has no tags and no values.
pub open spec fn starting_state(
    namespace: Seq<char>,
    name: Seq<char>,
    owner: OwnerReferenceView,
    existing: Option<SecretView>,
) -> SecretView {
    SecretView {
        namespace,
        name,
        owner_references: seq![owner],
        annotations: match existing {
            Some(stored) => managed_tags(stored.annotations),
            None => Map::empty(),
        },
        data: match existing {
            Some(stored) => stored.data,
            None => Map::empty(),
        },
    }
}

/// The tags after a pass: for each declared entry the tag of its kind, no other tag
/// with the prefix, and every tag without the prefix as it was.
pub open spec fn planned_tags(
    declared: Map<Seq<char>, AutoSecretType>,
    actual: SecretView,
) -> Map<Seq<char>, Seq<char>> {
    Map::new(
        |key: Seq<char>|
            if is_managed_key(key) {
                declared.contains_key(entry_name(key))
            } else {
                actual.annotations.contains_key(key)
            },
        |key: Seq<char>|
            if is_managed_key(key) {
                tag_of(declared[entry_name(key)])
            } else {
                actual.annotations[key]
            },
    )
}

/// Whether `value` holds the bytes of a text that has the shape of kind `kind`.
pub open spec fn is_value_of_kind(kind: AutoSecretType, value: Seq<u8>) -> bool {
    exists|text: Seq<char>| kind.well_formed(text) && value == #[trigger] encode_utf8(text)
}

/// What one pass makes of a secret.
///
/// Namespace, name and owners stay. The tags are the planned ones. A value is stored
/// for each entry to write and for each entry that had one and is not to remove, and
/// for no other entry. The value of an entry to write has the shape of the declared
/// kind; every other value is what it was.
pub open spec fn reconciled(
    declared: Map<Seq<char>, AutoSecretType>,
    before: SecretView,
    after: SecretView,
) -> bool {
    &&& after.namespace == before.namespace
    &&& after.name == before.name
    &&& after.owner_references == before.owner_references
    &&& after.annotations == planned_tags(declared, before)
    &&& forall|name: Seq<char>| #[trigger]
        after.data.contains_key(name) <==> to_write(declared, before).contains(name) || (
        before.data.contains_key(name) && !to_remove(declared, before).contains(name))
    &&& forall|name: Seq<char>| #[trigger]
        after.data.contains_key(name) ==> if to_write(declared, before).contains(name) {
            is_value_of_kind(declared[name], after.data[name])
        } else {
            after.data[name] == before.data[name]
        }
}

/// What a pass has made of a secret once it has removed what is to remove and has
/// dealt with the declared entries in `done`.
spec fn partly_reconciled(
    declared: Map<Seq<char>, AutoSecretType>,
    before: SecretView,
    done: Set<Seq<char>>,
    after: SecretView,
) -> bool {
    let base = before.without(to_remove(declared, before));
    let written = written(declared, before, done);
    &&& after.namespace == before.namespace
    &&& after.name == before.name
    &&& after.owner_references == before.owner_references
    &&& after.annotations == Map::new(
        |key: Seq<char>|
            base.annotations.contains_key(key) || (is_managed_key(key) && written.contains(
                entry_name(key),
            )),
        |key: Seq<char>|
            if is_managed_key(key) && written.contains(entry_name(key)) {
                tag_of(declared[entry_name(key)])
            } else {
                base.annotations[key]
            },
    )
    &&& forall|name: Seq<char>| #[trigger]
        after.data.contains_key(name) <==> written.contains(name) || base.data.contains_key(name)
    &&& forall|name: Seq<char>| #[trigger]
        after.data.contains_key(name) ==> if written.contains(name) {
            is_value_of_kind(declared[name], after.data[name])
        } else {
            after.data[name] == base.data[name]
        }
}

proof fn lemma_removal_starts_the_pass(declared: Map<Seq<char>, AutoSecretType>, before: SecretView)
    ensures
        partly_reconciled(
            declared,
            before,
            Set::empty(),
            before.without(to_remove(declared, before)),
        ),
{
    let base = before.without(to_remove(declared, before));
    let written = written(declared, before, Set::empty());
    assert(base.annotations =~= Map::new(
        |key: Seq<char>|
            base.annotations.contains_key(key) || (is_managed_key(key) && written.contains(
                entry_name(key),
            )),
        |key: Seq<char>|
            if is_managed_key(key) && written.contains(entry_name(key)) {
                tag_of(declared[entry_name(key)])
            } else {
                base.annotations[key]
            },
    ));
}

proof fn lemma_status_is_stable(
    declared: Map<Seq<char>, AutoSecretType>,
    before: SecretView,
    done: Set<Seq<char>>,
    current: SecretView,
    name: Seq<char>,
)
    requires
        partly_reconciled(declared, before, done, current),
        declared.contains_key(name),
        !done.contains(name),
    ensures
        current.status(name, declared[name]) == before.status(name, declared[name]),
{
    lemma_annotation_key(name, annotation_key(name));
}

proof fn lemma_skip_step(
    declared: Map<Seq<char>, AutoSecretType>,
    before: SecretView,
    done: Set<Seq<char>>,
    current: SecretView,
    name: Seq<char>,
)
    requires
        partly_reconciled(declared, before, done, current),
        declared.contains_key(name),
        before.status(name, declared[name]) == SecretStatus::Matches,
    ensures
        partly_reconciled(declared, before, done.insert(name), current),
{
    assert(written(declared, before, done.insert(name)) =~= written(declared, before, done));
}

proof fn lemma_write_step(
    declared: Map<Seq<char>, AutoSecretType>,
    before: SecretView,
    done: Set<Seq<char>>,
    current: SecretView,
    name: Seq<char>,
    value: Seq<u8>,
)
    requires
        partly_reconciled(declared, before, done, current),
        declared.contains_key(name),
        !done.contains(name),
        before.status(name, declared[name]) != SecretStatus::Matches,
        is_value_of_kind(declared[name], value),
    ensures
        partly_reconciled(
            declared,
            before,
            done.insert(name),
            current.with_secret(name, declared[name], value),
        ),
{
    let base = before.without(to_remove(declared, before));
    let earlier = written(declared, before, done);
    let now = written(declared, before, done.insert(name));
    let next = current.with_secret(name, declared[name], value);
    assert forall|other: Seq<char>| now.contains(other) == (earlier.contains(other) || other
        == name) by {}
    assert forall|key: Seq<char>|
        (key == annotation_key(name)) == (is_managed_key(key) && entry_name(key) == name) by {
        lemma_annotation_key(name, key);
    }
    assert(next.annotations =~= Map::new(
        |key: Seq<char>|
            base.annotations.contains_key(key) || (is_managed_key(key) && now.contains(
                entry_name(key),
            )),
        |key: Seq<char>|
            if is_managed_key(key) && now.contains(entry_name(key)) {
                tag_of(declared[entry_name(key)])
            } else {
                base.annotations[key]
            },
    ));
    assert forall|other: Seq<char>| #[trigger]
        next.data.contains_key(other) <==> now.contains(other) || base.data.contains_key(
            other,
        ) by {
        if other != name {
            assert(next.data.contains_key(other) == current.data.contains_key(other));
        }
    }
    assert forall|other: Seq<char>| #[trigger] next.data.contains_key(other) implies if now.contains(
        other,
    ) {
        is_value_of_kind(declared[other], next.data[other])
    } else {
        next.data[other] == base.data[other]
    } by {
        if other != name {
            assert(current.data.contains_key(other));
            assert(next.data[other] == current.data[other]);
        }
    }
}

proof fn lemma_all_done(
    declared: Map<Seq<char>, AutoSecretType>,
    before: SecretView,
    done: Set<Seq<char>>,
    after: SecretView,
)
    requires
        partly_reconciled(declared, before, done, after),
        declared.dom().subset_of(done),
    ensures
        reconciled(declared, before, after),
{
    let base = before.without(to_remove(declared, before));
    let written = written(declared, before, done);
    assert forall|name: Seq<char>| written.contains(name) == to_write(declared, before).contains(
        name,
    ) by {}
    assert forall|key: Seq<char>| is_managed_key(key) implies annotation_key(entry_name(key))
        == key by {
        lemma_annotation_key(entry_name(key), key);
    }
    assert(after.annotations =~= planned_tags(declared, before));
    assert forall|name: Seq<char>| #[trigger]
        after.data.contains_key(name) <==> to_write(declared, before).contains(name) || (
        before.data.contains_key(name) && !to_remove(declared, before).contains(name)) by {
        assert(after.data.contains_key(name) <==> written.contains(name)
            || base.data.contains_key(name));
    }
    assert forall|name: Seq<char>| #[trigger] after.data.contains_key(name) implies if to_write(
        declared,
        before,
    ).contains(name) {
        is_value_of_kind(declared[name], after.data[name])
    } else {
        after.data[name] == before.data[name]
    } by {
        assert(written.contains(name) == to_write(declared, before).contains(name));
    }
}

/// What a read of the store comes to: the stored secret if there is one, or the
/// failure that carries the cause.
pub fn fetched(outcome: Result<Option<Secret>, String>) -> (r: Result<
    Option<Secret>,
    ControllerError,
>)
    ensures
        match outcome {
            Ok(found) => r == Ok::<Option<Secret>, ControllerError>(found),
            Err(cause) => r == Err::<Option<Secret>, ControllerError>(
                ControllerError::SecretGetFailed(cause),
            ),
        },
{
    match outcome {
        Ok(found) => Ok(found),
        Err(cause) => Err(ControllerError::SecretGetFailed(cause)),
    }
}

/// What a write to the store comes to: after a write that succeeded the pass is over
/// and the object waits for its next change; a write that failed is the failure that
/// carries the cause.
pub fn applied(outcome: Result<(), String>) -> (r: Result<Action, ControllerError>)
    ensures
        match outcome {
            Ok(_) => r matches Ok(action) && action.requeue_after.is_none(),
            Err(cause) => r == Err::<Action, ControllerError>(
                ControllerError::SecretApplyFailed(cause),
            ),
        },
{
    match outcome {
        Ok(_) => Ok(Action::await_change()),
        Err(cause) => Err(ControllerError::SecretApplyFailed(cause)),
    }
}

/// Removes from `annotations` every tag whose key does not carry the prefix.
fn keep_managed(annotations: &mut StringMap<String>)
    ensures
        final(annotations)@ == managed_tags(old(annotations)@),
{
    let ghost before = annotations@;
    let mut foreign: Vec<String> = Vec::new();
    let count: usize = annotations.len();
    let mut i: usize = 0;
    while i < count
        invariant
            i <= count,
            count == annotations.key_seq().len(),
            annotations.keys_describe_view(),
            annotations@ == before,
            forall|m: int| 0 <= m < foreign@.len() ==> !is_managed_key(#[trigger] foreign@[m]@),
            forall|j: int|
                0 <= j < i && !is_managed_key(#[trigger] annotations.key_seq()[j]) ==> names_among(
                    foreign@,
                    foreign@.len() as int,
                ).contains(annotations.key_seq()[j]),
        decreases count - i,
    {
        let key = annotations.key(i);
        let ghost found = foreign@;
        if managed_entry_name(key.as_str()).is_none() {
            foreign.push(key.clone());
        }
        proof {
            assert forall|j: int|
                0 <= j < i + 1 && !is_managed_key(
                    #[trigger] annotations.key_seq()[j],
                ) implies names_among(foreign@, foreign@.len() as int).contains(
                annotations.key_seq()[j],
            ) by {
                let wanted = annotations.key_seq()[j];
                if j < i {
                    assert(names_among(found, found.len() as int).contains(wanted));
                    let m = choose|m: int| 0 <= m < found.len() && found[m]@ == wanted;
                    assert(foreign@[m]@ == wanted);
                } else {
                    assert(foreign@[foreign@.len() - 1]@ == wanted);
                }
            }
        }
        i += 1;
    }
    proof {
        assert forall|key: Seq<char>| before.contains_key(key) && !is_managed_key(
            key,
        ) implies names_among(foreign@, foreign@.len() as int).contains(key) by {
            assert(annotations.key_seq().to_set().contains(key));
            let j = choose|j: int|
                0 <= j < annotations.key_seq().len() && annotations.key_seq()[j] == key;
            assert(!is_managed_key(annotations.key_seq()[j]));
        }
    }
    let mut done: usize = 0;
    while done < foreign.len()
        invariant
            done <= foreign@.len(),
            annotations@ == Map::new(
                |key: Seq<char>|
                    before.contains_key(key) && !names_among(foreign@, done as int).contains(key),
                |key: Seq<char>| before[key],
            ),
        decreases foreign@.len() - done,
    {
        let _ = annotations.remove(foreign[done].as_str());
        proof {
            let dropped = foreign@[done as int]@;
            let earlier = names_among(foreign@, done as int);
            let now = names_among(foreign@, done + 1);
            assert forall|other: Seq<char>| now.contains(other) == (earlier.contains(other)
                || other == dropped) by {
                if earlier.contains(other) {
                    let m = choose|m: int|
                        0 <= m < done && m < foreign@.len() && foreign@[m]@ == other;
                    assert(0 <= m < done + 1 && foreign@[m]@ == other);
                }
                if other == dropped {
                    assert(0 <= done < done + 1 && foreign@[done as int]@ == other);
                }
            }
            assert(annotations@ =~= Map::new(
                |key: Seq<char>| before.contains_key(key) && !now.contains(key),
                |key: Seq<char>| before[key],
            ));
        }
        done += 1;
    }
    proof {
        let all = names_among(foreign@, foreign@.len() as int);
        assert forall|key: Seq<char>| all.contains(key) implies !is_managed_key(key) by {
            let m = choose|m: int| 0 <= m < foreign@.len() && foreign@[m]@ == key;
            assert(!is_managed_key(foreign@[m]@));
        }
        assert(annotations@ =~= managed_tags(before));
    }
}

/// Prepares the secret that a pass works on, from what the store holds for the object.
///
/// An object without a name or without a namespace is refused, the name being looked
/// at first. Otherwise the result is the starting state: it names the object, is owned
/// by `owner`, and takes the values and the tags with the prefix from `existing`.
pub fn get_secret_or_default(
    auto_secret: &AutoSecret,
    owner: OwnerReference,
    existing: Option<Secret>,
) -> (r: Result<Secret, ControllerError>)
    ensures
        match (auto_secret.metadata.name, auto_secret.metadata.namespace) {
            (None, _) => is_missing_key(r, ".metadata.name"@),
            (Some(_), None) => is_missing_key(r, ".metadata.namespace"@),
            (Some(name), Some(namespace)) => r matches Ok(secret) && secret@ == starting_state(
                namespace@,
                name@,
                owner@,
                view_of(existing),
            ),
        },
{
    let name = match auto_secret.name() {
        Ok(name) => name,
        Err(e) => {
            return Err(e);
        },
    };
    let namespace = match auto_secret.namespace() {
        Ok(namespace) => namespace,
        Err(e) => {
            return Err(e);
        },
    };
    let ghost owner_view = owner@;
    let mut owners: Vec<OwnerReference> = Vec::new();
    owners.push(owner);
    proof {
        assert(owners@.map_values(|o: OwnerReference| o@) =~= seq![owner_view]);
    }
    let mut secret = Secret::new(namespace, name, owners);
    match existing {
        Some(stored) => {
            let mut annotations = stored.annotations;
            keep_managed(&mut annotations);
            secret.annotations = annotations;
            secret.data = stored.data;
        },
        None => {},
    }
    Ok(secret)
}

/// One pass over an object: works out what its secret has to hold.
///
/// `existing` is what the store holds under the object's namespace and name, `owner`
/// is the reference to the object. An object without a name or without a namespace is
/// refused. Otherwise the pass starts from `starting_state`, removes the entries that
/// have a tag and are no longer declared, and writes a fresh value with the tag of
/// its kind for each declared entry whose tag is missing or stale. The result is what
/// the caller hands to the store in a single write.
pub fn reconcile(resource: &AutoSecret, owner: OwnerReference, existing: Option<Secret>) -> (r:
    Result<Secret, ControllerError>)
    ensures
        match (resource.metadata.name, resource.metadata.namespace) {
            (None, _) => is_missing_key(r, ".metadata.name"@),
            (Some(_), None) => is_missing_key(r, ".metadata.namespace"@),
            (Some(name), Some(namespace)) => r matches Ok(secret) && reconciled(
                resource.spec.secrets@,
                starting_state(namespace@, name@, owner@, view_of(existing)),
                secret@,
            ),
        },
{
    let mut secret = match get_secret_or_default(resource, owner, existing) {
        Ok(secret) => secret,
        Err(e) => {
            return Err(e);
        },
    };
    let ghost before = secret@;
    let declared = resource.secrets();
    let _ = secret.retain(declared);
    proof {
        lemma_removal_starts_the_pass(declared@, before);
        assert(first_keys(declared.key_seq(), 0) =~= Set::<Seq<char>>::empty());
    }
    let count: usize = declared.len();
    let mut i: usize = 0;
    while i < count
        invariant
            i <= count,
            count == declared.key_seq().len(),
            declared.keys_describe_view(),
            partly_reconciled(declared@, before, first_keys(declared.key_seq(), i as int), secret@),
        decreases count - i,
    {
        let name = declared.key(i);
        let kind = declared.value(i);
        let ghost done = first_keys(declared.key_seq(), i as int);
        let ghost current = secret@;
        proof {
            lemma_first_keys_step(declared.key_seq(), i as int);
            lemma_status_is_stable(declared@, before, done, current, name@);
        }
        match secret.secret_status(name.as_str(), kind) {
            SecretStatus::Matches => {
                proof {
                    lemma_skip_step(declared@, before, done, current, name@);
                }
            },
            _ => {
                secret.set_secret(name.as_str(), kind);
                proof {
                    let text = choose|text: Seq<char>|
                        kind.well_formed(text) && secret@ == #[trigger] current.with_secret(
                            name@,
                            *kind,
                            encode_utf8(text),
                        );
                    lemma_write_step(declared@, before, done, current, name@, encode_utf8(text));
                }
            },
        }
        i += 1;
    }
    proof {
        assert(declared@.dom().subset_of(first_keys(declared.key_seq(), count as int))) by {
            assert forall|key: Seq<char>| declared@.dom().contains(key) implies first_keys(
                declared.key_seq(),
                count as int,
            ).contains(key) by {
                assert(declared.key_seq().to_set().contains(key));
            }
        }
        lemma_all_done(
            declared@,
            before,
            first_keys(declared.key_seq(), count as int),
            secret@,
        );
    }
    Ok(secret)
}

} // verus!
