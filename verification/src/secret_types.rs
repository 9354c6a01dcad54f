use vstd::prelude::*;

verus! {

/// The way an entry's value is produced.
#[derive(Clone, Copy, Hash, PartialEq, Eq, Structural, PartialOrd, Ord, Debug)]
pub enum AutoSecretType {
    /// A random version-4 UUID, written in hyphenated lower-case form.
    Uuid,
    /// A ULID: 26 characters of Crockford base 32 that sort by time of creation.
    Ulid,
}

impl View for AutoSecretType {
    type V = AutoSecretType;

    open spec fn view(&self) -> AutoSecretType {
        *self
    }
}

/// A decimal digit or a lower-case letter from `a` to `f`.
pub open spec fn is_lower_hex(c: char) -> bool {
    ('0' <= c && c <= '9') || ('a' <= c && c <= 'f')
}

/// A character of Crockford's base 32 alphabet: a decimal digit or an upper-case
/// letter other than `I`, `L`, `O` and `U`.
pub open spec fn is_crockford_base32(c: char) -> bool {
    ('0' <= c && c <= '9') || ('A' <= c && c <= 'Z' && c != 'I' && c != 'L' && c != 'O' && c
        != 'U')
}

/// The shape of a version-4 UUID in hyphenated lower-case form: 36 characters, hyphens
/// at positions 8, 13, 18 and 23, lower-case hexadecimal digits everywhere else, the
/// version digit `4` at position 14 and a variant digit from `8` to `b` at position 19.
pub open spec fn is_uuid_v4(text: Seq<char>) -> bool {
    &&& text.len() == 36
    &&& forall|i: int|
        0 <= i < 36 ==> if i == 8 || i == 13 || i == 18 || i == 23 {
            #[trigger] text[i] == '-'
        } else {
            is_lower_hex(text[i])
        }
    &&& text[14] == '4'
    &&& (text[19] == '8' || text[19] == '9' || text[19] == 'a' || text[19] == 'b')
}

/// The shape of a ULID in its canonical text form: 26 characters of Crockford's
/// base 32 alphabet, the first of them between `0` and `7` because the identifier
/// has 128 bits.
pub open spec fn is_ulid(text: Seq<char>) -> bool {
    &&& text.len() == 26
    &&& forall|i: int| 0 <= i < 26 ==> is_crockford_base32(#[trigger] text[i])
    &&& '0' <= text[0] && text[0] <= '7'
}

/// Calls `uuid::Uuid::new_v4` and formats the identifier with its `Display` impl.
///
/// The identifier is random, so the contract states only the shape that every result
/// has: the hyphenated lower-case form, with the version and variant bits that
/// `new_v4` sets. The call panics if the operating system hands out no random bytes.
#[verifier::external_body]
fn new_uuid_v4_text() -> (text: String)
    ensures
        is_uuid_v4(text@),
{
    uuid::Uuid::new_v4().to_string()
}

/// Calls `ulid::Ulid::new` and formats the identifier with `Ulid::to_string`.
///
/// The identifier is made of the current time and random bits, so the contract states
/// only the shape that every result has: 26 characters of the Crockford alphabet, of
/// which the first encodes three bits.
#[verifier::external_body]
fn new_ulid_text() -> (text: String)
    ensures
        is_ulid(text@),
{
    ulid::Ulid::new().to_string()
}

impl AutoSecretType {
    /// The name by which the kind is declared.
    pub open spec fn name(self) -> Seq<char> {
        match self {
            AutoSecretType::Uuid => "uuid"@,
            AutoSecretType::Ulid => "ulid"@,
        }
    }

    /// The kind that a name declares, if it declares one.
    pub open spec fn named(name: Seq<char>) -> Option<AutoSecretType> {
        if name == "uuid"@ {
            Some(AutoSecretType::Uuid)
        } else if name == "ulid"@ {
            Some(AutoSecretType::Ulid)
        } else {
            None
        }
    }

    /// What reading `name` as a kind gives: the kind that `name` declares, or a refusal.
    pub open spec fn parsed(name: Seq<char>) -> Result<AutoSecretType, ()> {
        match Self::named(name) {
            Some(kind) => Ok(kind),
            None => Err(()),
        }
    }

    /// The number that stands for the kind where it is hashed: its position in the
    /// declaration.
    pub open spec fn code(self) -> u64 {
        match self {
            AutoSecretType::Uuid => 0,
            AutoSecretType::Ulid => 1,
        }
    }

    /// Whether `text` has the shape of a value of this kind.
    pub open spec fn well_formed(self, text: Seq<char>) -> bool {
        match self {
            AutoSecretType::Uuid => is_uuid_v4(text),
            AutoSecretType::Ulid => is_ulid(text),
        }
    }

    /// The name by which the kind is declared.
    pub fn as_str(&self) -> (name: &'static str)
        ensures
            name@ == self.name(),
    {
        match self {
            AutoSecretType::Uuid => "uuid",
            AutoSecretType::Ulid => "ulid",
        }
    }

    /// The number that stands for the kind where it is hashed.
    pub(crate) fn discriminant(&self) -> (code: u64)
        ensures
            code == self.code(),
    {
        match self {
            AutoSecretType::Uuid => 0,
            AutoSecretType::Ulid => 1,
        }
    }

    /// Produces a new value of this kind. The value is random, and for a ULID it also
    /// depends on the time of the call, so the contract states what holds of every
    /// outcome: the value has the shape of its kind.
    pub fn generate(&self) -> (value: String)
        ensures
            self.well_formed(value@),
    {
        match self {
            AutoSecretType::Uuid => new_uuid_v4_text(),
            AutoSecretType::Ulid => new_ulid_text(),
        }
    }
}

impl<'a> TryFrom<&'a str> for AutoSecretType {
    type Error = ();

    /// Reads a kind from its name. Any other string is refused.
    fn try_from(value: &'a str) -> (r: Result<AutoSecretType, ()>) {
        let wanted = value.to_owned();
        if wanted == "uuid".to_owned() {
            Ok(AutoSecretType::Uuid)
        } else if wanted == "ulid".to_owned() {
            Ok(AutoSecretType::Ulid)
        } else {
            Err(())
        }
    }
}

impl<'a> vstd::std_specs::convert::TryFromSpecImpl<&'a str> for AutoSecretType {
    open spec fn obeys_try_from_spec() -> bool {
        true
    }

    open spec fn try_from_spec(value: &'a str) -> Result<AutoSecretType, ()> {
        AutoSecretType::parsed(value@)
    }
}

/// A name declares the kind that bears it, and no two kinds share a name.
pub proof fn lemma_names_are_distinct(kind: AutoSecretType)
    ensures
        AutoSecretType::named(kind.name()) == Some(kind),
{
    reveal_strlit("uuid");
    reveal_strlit("ulid");
    assert("uuid"@[1] != "ulid"@[1]);
}

} // verus!
