use crate::controller::ControllerError;
use crate::secret_types::AutoSecretType;
use crate::string_map::StringMap;
use vstd::prelude::*;

verus! {

/// What an object declares: for each entry's name, the kind of its value.
#[derive(Clone, Debug)]
pub struct AutoSecretSpec {
    pub secrets: StringMap<AutoSecretType>,
}

/// What identifies an object. A field that the object lacks is `None`.
#[derive(Clone, Debug)]
pub struct ObjectMeta {
    pub name: Option<String>,
    pub namespace: Option<String>,
}

/// An object that declares secrets. The secret that holds their values has the
/// object's namespace and name.
#[derive(Clone, Debug)]
pub struct AutoSecret {
    pub metadata: ObjectMeta,
    pub spec: AutoSecretSpec,
}

/// Whether `r` is the failure that reports the lack of the field at `path`.
pub open spec fn is_missing_key<T>(r: Result<T, ControllerError>, path: Seq<char>) -> bool {
    r matches Err(ControllerError::MissingObjectKey(key)) && key@ == path
}

impl AutoSecret {
    /// The object's namespace, or the failure that reports its lack.
    pub fn namespace(&self) -> (r: Result<String, ControllerError>)
        ensures
            match self.metadata.namespace {
                Some(namespace) => r matches Ok(found) && found@ == namespace@,
                None => is_missing_key(r, ".metadata.namespace"@),
            },
    {
        match &self.metadata.namespace {
            Some(namespace) => Ok(namespace.clone()),
            None => Err(ControllerError::MissingObjectKey(".metadata.namespace")),
        }
    }

    /// The object's name, or the failure that reports its lack.
    pub fn name(&self) -> (r: Result<String, ControllerError>)
        ensures
            match self.metadata.name {
                Some(name) => r matches Ok(found) && found@ == name@,
                None => is_missing_key(r, ".metadata.name"@),
            },
    {
        match &self.metadata.name {
            Some(name) => Ok(name.clone()),
            None => Err(ControllerError::MissingObjectKey(".metadata.name")),
        }
    }

    /// The declared entries.
    pub fn secrets(&self) -> (secrets: &StringMap<AutoSecretType>)
        ensures
            secrets == &self.spec.secrets,
    {
        &self.spec.secrets
    }
}

} // verus!
