use crate::hashing::{hash, tag_of};
use crate::names::{are_distinct, first_keys, names_among, names_of};
use crate::secret_types::AutoSecretType;
use crate::string_map::StringMap;
use vstd::prelude::*;
use vstd::utf8::encode_utf8;

verus! {

/// What every tag key of this system begins with. A tag whose key begins otherwise
/// is foreign: nothing here reads, changes or removes it.
pub const ANNOTATION_PREFIX: &'static str = "autosecrets.webstep.no/";

/// The tag key of an entry: the prefix, then the entry's name.
pub open spec fn annotation_key(name: Seq<char>) -> Seq<char> {
    ANNOTATION_PREFIX@ + name
}

/// Whether a tag key carries the prefix.
pub open spec fn is_managed_key(key: Seq<char>) -> bool {
    ANNOTATION_PREFIX@.is_prefix_of(key)
}

/// The entry that a tag key with the prefix belongs to: what follows the prefix.
pub open spec fn entry_name(key: Seq<char>) -> Seq<char> {
    key.skip(ANNOTATION_PREFIX@.len() as int)
}

/// The keys with the prefix are the tag keys of entries, one key for each name.
pub proof fn lemma_annotation_key(name: Seq<char>, key: Seq<char>)
    ensures
        is_managed_key(annotation_key(name)),
        entry_name(annotation_key(name)) == name,
        is_managed_key(key) ==> annotation_key(entry_name(key)) == key,
        key == annotation_key(name) <==> is_managed_key(key) && entry_name(key) == name,
{
    let p = ANNOTATION_PREFIX@;
    assert(annotation_key(name).subrange(0, p.len() as int) =~= p);
    assert(annotation_key(name).skip(p.len() as int) =~= name);
    if is_managed_key(key) {
        assert(p + key.skip(p.len() as int) =~= key);
    }
}

/// The tag key of an entry.
pub fn annotation_name(name: &str) -> (key: String)
    ensures
        key@ == annotation_key(name@),
{
    String::from_str(ANNOTATION_PREFIX).concat(name)
}

/// Splits a tag key: the entry's name if the key carries the prefix, nothing if the
/// key is foreign.
pub fn managed_entry_name(key: &str) -> (r: Option<String>)
    ensures
        match r {
            Some(name) => is_managed_key(key@) && name@ == entry_name(key@),
            None => !is_managed_key(key@),
        },
{
    let prefix_len: usize = ANNOTATION_PREFIX.unicode_len();
    let key_len: usize = key.unicode_len();
    if key_len < prefix_len {
        return None;
    }
    let mut i: usize = 0;
    while i < prefix_len
        invariant
            i <= prefix_len,
            prefix_len == ANNOTATION_PREFIX@.len(),
            key_len == key@.len(),
            prefix_len <= key_len,
            forall|j: int| 0 <= j < i ==> key@[j] == ANNOTATION_PREFIX@[j],
        decreases prefix_len - i,
    {
        if key.get_char(i) != ANNOTATION_PREFIX.get_char(i) {
            proof {
                assert(key@.subrange(0, prefix_len as int)[i as int] == key@[i as int]);
            }
            return None;
        }
        i += 1;
    }
    proof {
        assert(key@.subrange(0, prefix_len as int) =~= ANNOTATION_PREFIX@);
        assert(key@.subrange(prefix_len as int, key_len as int) =~= key@.skip(prefix_len as int));
    }
    Some(String::from_str(key.substring_char(prefix_len, key_len)))
}

/// The object that owns a stored secret: when the owner is deleted, the store
/// collects the secret.
#[derive(Clone, Debug)]
pub struct OwnerReference {
    pub api_version: String,
    pub kind: String,
    pub name: String,
    pub uid: String,
    pub controller: Option<bool>,
    pub block_owner_deletion: Option<bool>,
}

/// An owner reference as plain values.
pub struct OwnerReferenceView {
    pub api_version: Seq<char>,
    pub kind: Seq<char>,
    pub name: Seq<char>,
    pub uid: Seq<char>,
    pub controller: Option<bool>,
    pub block_owner_deletion: Option<bool>,
}

impl View for OwnerReference {
    type V = OwnerReferenceView;

    open spec fn view(&self) -> OwnerReferenceView {
        OwnerReferenceView {
            api_version: self.api_version@,
            kind: self.kind@,
            name: self.name@,
            uid: self.uid@,
            controller: self.controller,
            block_owner_deletion: self.block_owner_deletion,
        }
    }
}

/// How a stored secret stands to one declared entry.
#[derive(Clone, Copy, Debug, PartialEq, Eq, Structural)]
pub enum SecretStatus {
    /// No tag is stored for the entry.
    Missing,
    /// A tag is stored, and it is not the tag of the declared kind.
    Outdated,
    /// The stored tag is the tag of the declared kind.
    Matches,
}

/// A stored secret: who it is, who owns it, its tags and its values.
///
/// The tag of entry `n` is stored under `annotation_key(n)` and holds the tag of the
/// kind that the value of `n` was generated for; the value is stored under `n`.
#[derive(Clone, Debug)]
pub struct Secret {
    pub namespace: String,
    pub name: String,
    pub owner_references: Vec<OwnerReference>,
    pub annotations: StringMap<String>,
    pub data: StringMap<Vec<u8>>,
}

/// A stored secret as plain values.
#[verifier::ext_equal]
pub struct SecretView {
    pub namespace: Seq<char>,
    pub name: Seq<char>,
    pub owner_references: Seq<OwnerReferenceView>,
    pub annotations: Map<Seq<char>, Seq<char>>,
    pub data: Map<Seq<char>, Seq<u8>>,
}

impl View for Secret {
    type V = SecretView;

    open spec fn view(&self) -> SecretView {
        SecretView {
            namespace: self.namespace@,
            name: self.name@,
            owner_references: self.owner_references@.map_values(|o: OwnerReference| o@),
            annotations: self.annotations@,
            data: self.data@,
        }
    }
}

impl SecretView {
    /// Whether a tag is stored for the entry `name`.
    pub open spec fn is_managed(self, name: Seq<char>) -> bool {
        self.annotations.contains_key(annotation_key(name))
    }

    /// Every entry that has a tag has a value.
    pub open spec fn tags_have_values(self) -> bool {
        forall|name: Seq<char>| #[trigger] self.is_managed(name) ==> self.data.contains_key(name)
    }

    /// How the secret stands to an entry `name` declared with kind `kind`.
    pub open spec fn status(self, name: Seq<char>, kind: AutoSecretType) -> SecretStatus {
        if !self.is_managed(name) {
            SecretStatus::Missing
        } else if self.annotations[annotation_key(name)] == tag_of(kind) {
            SecretStatus::Matches
        } else {
            SecretStatus::Outdated
        }
    }

    /// The entries that have a tag and are not among the declared names.
    pub open spec fn to_remove(self, declared: Set<Seq<char>>) -> Set<Seq<char>> {
        Set::new(|name: Seq<char>| self.is_managed(name) && !declared.contains(name))
    }

    /// The secret without the tags and values of the entries in `names`.
    pub open spec fn without(self, names: Set<Seq<char>>) -> SecretView {
        SecretView {
            annotations: Map::new(
                |key: Seq<char>|
                    self.annotations.contains_key(key) && !(is_managed_key(key) && names.contains(
                        entry_name(key),
                    )),
                |key: Seq<char>| self.annotations[key],
            ),
            data: Map::new(
                |name: Seq<char>| self.data.contains_key(name) && !names.contains(name),
                |name: Seq<char>| self.data[name],
            ),
            ..self
        }
    }

    /// The secret with the entry `name` set: its tag is the tag of `kind`, its value
    /// is `value`.
    pub open spec fn with_secret(
        self,
        name: Seq<char>,
        kind: AutoSecretType,
        value: Seq<u8>,
    ) -> SecretView {
        SecretView {
            annotations: self.annotations.insert(annotation_key(name), tag_of(kind)),
            data: self.data.insert(name, value),
            ..self
        }
    }
}

/// Removes the tag and the value of the entry `name`.
pub fn remove_secret(
    annotations: &mut StringMap<String>,
    data: &mut StringMap<Vec<u8>>,
    name: &str,
)
    ensures
        final(annotations)@ == old(annotations)@.remove(annotation_key(name@)),
        final(data)@ == old(data)@.remove(name@),
{
    let key = annotation_name(name);
    let _ = annotations.remove(key.as_str());
    let _ = data.remove(name);
}

impl Secret {
    /// A secret without tags and values.
    pub fn new(namespace: String, name: String, owner_references: Vec<OwnerReference>) -> (secret:
        Secret)
        ensures
            secret@ == (SecretView {
                namespace: namespace@,
                name: name@,
                owner_references: owner_references@.map_values(|o: OwnerReference| o@),
                annotations: Map::<Seq<char>, Seq<char>>::empty(),
                data: Map::<Seq<char>, Seq<u8>>::empty(),
            }),
    {
        Secret {
            namespace,
            name,
            owner_references,
            annotations: StringMap::new(),
            data: StringMap::new(),
        }
    }

    /// The entries that have a tag and that `declared` does not name, each once.
    pub fn entries_to_remove(&self, declared: &StringMap<AutoSecretType>) -> (stale: Vec<String>)
        ensures
            names_of(stale@) == self@.to_remove(declared@.dom()),
            are_distinct(stale@),
    {
        let ghost stale_names = self@.to_remove(declared@.dom());
        let ghost keys = self.annotations.key_seq();
        let mut stale: Vec<String> = Vec::new();
        let count: usize = self.annotations.len();
        let mut i: usize = 0;
        while i < count
            invariant
                i <= count,
                count == keys.len(),
                keys == self.annotations.key_seq(),
                self.annotations.keys_describe_view(),
                stale_names == self@.to_remove(declared@.dom()),
                are_distinct(stale@),
                forall|m: int|
                    0 <= m < stale@.len() ==> stale_names.contains(#[trigger] stale@[m]@)
                        && first_keys(keys, i as int).contains(annotation_key(stale@[m]@)),
                forall|j: int|
                    0 <= j < i && is_managed_key(#[trigger] keys[j]) && !declared@.contains_key(
                        entry_name(keys[j]),
                    ) ==> names_of(stale@).contains(entry_name(keys[j])),
            decreases count - i,
        {
            let key = self.annotations.key(i);
            let ghost found = stale@;
            match managed_entry_name(key.as_str()) {
                Some(name) => {
                    if !declared.contains_key(name.as_str()) {
                        proof {
                            lemma_annotation_key(name@, key@);
                            assert forall|m: int| 0 <= m < found.len() implies found[m]@
                                != name@ by {
                                let j = choose|j: int|
                                    0 <= j < i && j < keys.len() && keys[j] == annotation_key(
                                        found[m]@,
                                    );
                                assert(keys[j] != keys[i as int]);
                            }
                        }
                        stale.push(name);
                    }
                },
                None => {},
            }
            proof {
                assert forall|m: int| 0 <= m < stale@.len() implies first_keys(
                    keys,
                    i + 1,
                ).contains(annotation_key(#[trigger] stale@[m]@)) by {
                    if m < found.len() {
                        let j = choose|j: int|
                            0 <= j < i && j < keys.len() && keys[j] == annotation_key(found[m]@);
                        assert(0 <= j < i + 1);
                    } else {
                        assert(keys[i as int] == annotation_key(stale@[m]@));
                    }
                }
                assert forall|j: int|
                    0 <= j < i + 1 && is_managed_key(#[trigger] keys[j])
                        && !declared@.contains_key(entry_name(keys[j])) implies names_of(
                    stale@,
                ).contains(entry_name(keys[j])) by {
                    let wanted = entry_name(keys[j]);
                    if j < i {
                        assert(names_of(found).contains(wanted));
                        let m = choose|m: int| 0 <= m < found.len() && found[m]@ == wanted;
                        assert(stale@[m]@ == wanted);
                    } else {
                        assert(stale@[stale@.len() - 1]@ == wanted);
                    }
                }
            }
            i += 1;
        }
        proof {
            assert(names_of(stale@) =~= stale_names) by {
                assert forall|name: Seq<char>| stale_names.contains(name) implies names_of(
                    stale@,
                ).contains(name) by {
                    let key = annotation_key(name);
                    lemma_annotation_key(name, key);
                    assert(keys.to_set().contains(key));
                    let j = choose|j: int| 0 <= j < keys.len() && keys[j] == key;
                    assert(is_managed_key(keys[j]));
                }
            }
        }
        stale
    }

    /// Keeps the entries that `declared` names and removes every other entry that has
    /// a tag, its tag and its value together. Tags without the prefix stay, and so do
    /// values without a tag. Returns whether anything was removed.
    pub fn retain(&mut self, declared: &StringMap<AutoSecretType>) -> (modified: bool)
        ensures
            final(self)@ == old(self)@.without(old(self)@.to_remove(declared@.dom())),
            modified == !(old(self)@.to_remove(declared@.dom()) =~= Set::<Seq<char>>::empty()),
    {
        let ghost before = self@;
        let ghost stale_names = before.to_remove(declared@.dom());
        let stale = self.entries_to_remove(declared);
        proof {
            assert(before.without(names_among(stale@, 0)) =~= before);
        }
        let modified = stale.len() > 0;
        let mut done: usize = 0;
        while done < stale.len()
            invariant
                done <= stale@.len(),
                self@ == before.without(names_among(stale@, done as int)),
            decreases stale@.len() - done,
        {
            let ghost previous = self@;
            remove_secret(&mut self.annotations, &mut self.data, stale[done].as_str());
            proof {
                let name = stale@[done as int]@;
                let earlier = names_among(stale@, done as int);
                let now = names_among(stale@, done + 1);
                assert forall|other: Seq<char>| now.contains(other) == (earlier.contains(other)
                    || other == name) by {
                    if earlier.contains(other) {
                        let m = choose|m: int|
                            0 <= m < done && m < stale@.len() && stale@[m]@ == other;
                        assert(0 <= m < done + 1 && stale@[m]@ == other);
                    }
                    if other == name {
                        assert(0 <= done < done + 1 && stale@[done as int]@ == other);
                    }
                }
                assert forall|key: Seq<char>|
                    (key == annotation_key(name)) == (is_managed_key(key) && entry_name(key)
                        == name) by {
                    lemma_annotation_key(name, key);
                }
                assert(self@.annotations =~= before.without(now).annotations);
                assert(self@.data =~= before.without(now).data);
                assert(self@ =~= before.without(now));
            }
            done += 1;
        }
        proof {
            if stale@.len() > 0 {
                assert(names_of(stale@).contains(stale@[0]@));
            }
        }
        modified
    }

    /// How the secret stands to the entry `name` declared with kind `spec`.
    pub fn secret_status(&self, name: &str, spec: &AutoSecretType) -> (status: SecretStatus)
        ensures
            status == self@.status(name@, *spec),
    {
        let key = annotation_name(name);
        match self.annotations.get(key.as_str()) {
            Some(stored) => {
                let declared = hash(spec);
                if *stored == declared {
                    SecretStatus::Matches
                } else {
                    SecretStatus::Outdated
                }
            },
            None => SecretStatus::Missing,
        }
    }

    /// Sets the entry `name`: stores the tag of `spec` and the bytes of `value`.
    pub fn store_secret(&mut self, name: &str, spec: &AutoSecretType, value: String)
        ensures
            final(self)@ == old(self)@.with_secret(name@, *spec, encode_utf8(value@)),
    {
        let key = annotation_name(name);
        let tag = hash(spec);
        let bytes = value.as_str().as_bytes_vec();
        self.annotations.insert(key, tag);
        self.data.insert(name.to_owned(), bytes);
    }

    /// Sets the entry `name` to a freshly generated value of kind `spec`, and stores
    /// the tag of `spec` with it.
    pub fn set_secret(&mut self, name: &str, spec: &AutoSecretType)
        ensures
            exists|text: Seq<char>|
                spec.well_formed(text) && final(self)@ == #[trigger] old(self)@.with_secret(
                    name@,
                    *spec,
                    encode_utf8(text),
                ),
    {
        let value = spec.generate();
        self.store_secret(name, spec, value);
    }
}

} // verus!
