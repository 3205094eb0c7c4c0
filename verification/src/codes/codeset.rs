//! Character sets registered with IANA.
//!
//! These are the official names for character sets that may be used in the
//! Internet. A character set is known by its name alone, under which its
//! record is stored.

use crate::store::{lemma_assoc_at, lemma_assoc_len, TextStore};
use vstd::prelude::*;

verus! {

/// A representation of registered character set data maintained by IANA.
#[derive(Debug)]
pub struct CodesetInfo {
    /// The name, not a code, for this code set.
    pub name: String,
    /// Any well known aliases for this code set.
    pub also_known_as: Vec<String>,
    /// The IANA registered MIB code.
    pub mib_code: u32,
    /// Sources identified in the IANA registration.
    pub source: Option<String>,
    /// References identified in the IANA registration.
    pub references: Option<String>,
}

/// The registry of character sets: the table of records by name.
pub struct CodesetRegistry {
    codesets: TextStore<CodesetInfo>,
}

impl CodesetRegistry {
    /// The table of records, keyed by name.
    pub closed spec fn codesets(&self) -> TextStore<CodesetInfo> {
        self.codesets
    }

    /// Validity: the table is valid.
    pub open spec fn wf(&self) -> bool {
        self.codesets().wf()
    }

    /// The record stored under `name`.
    pub open spec fn find(&self, name: Seq<char>) -> Option<CodesetInfo> {
        if self.codesets()@.contains_key(name) {
            Some(self.codesets()@[name])
        } else {
            None
        }
    }

    /// Every record is stored under the name that it carries itself.
    pub open spec fn filed_under_own_names(&self) -> bool {
        forall|i: int|
            0 <= i < self.codesets().keys().len() ==> (#[trigger] self.codesets().values()[i]).name@
                == self.codesets().keys()[i]
    }

    /// Builds the registry from the table of records.
    pub fn new(codesets: TextStore<CodesetInfo>) -> (registry: Self)
        requires
            codesets.wf(),
        ensures
            registry.wf(),
            registry.codesets() == codesets,
    {
        CodesetRegistry { codesets }
    }
}

/// Looks up a character set by its name, returning `None` if the name does
/// not exist in the registry. The match is exact.
pub fn lookup<'a>(registry: &'a CodesetRegistry, name: &str) -> (r: Option<&'a CodesetInfo>)
    requires
        registry.wf(),
    ensures
        match r {
            Some(codeset) => registry.find(name@) == Some(*codeset),
            None => registry.find(name@) is None,
        },
{
    registry.codesets.get(name)
}

/// Finds the first record, in the order of the table, that is stored under
/// a key other than the name that it carries itself. `None` means that every
/// record is stored under its own name.
pub fn find_misfiled(registry: &CodesetRegistry) -> (r: Option<usize>)
    requires
        registry.wf(),
    ensures
        match r {
            Some(i) => {
                &&& i < registry.codesets().keys().len()
                &&& registry.codesets().values()[i as int].name@
                    != registry.codesets().keys()[i as int]
                &&& forall|k: int|
                    0 <= k < i ==> (#[trigger] registry.codesets().values()[k]).name@
                        == registry.codesets().keys()[k]
            },
            None => registry.filed_under_own_names(),
        },
{
    let n: usize = registry.codesets.len();
    let mut i: usize = 0;
    while i < n
        invariant
            registry.wf(),
            n == registry.codesets().keys().len(),
            i <= n,
            forall|k: int|
                0 <= k < i ==> (#[trigger] registry.codesets().values()[k]).name@
                    == registry.codesets().keys()[k],
        decreases n - i,
    {
        if registry.codesets.value_at(i).name != *registry.codesets.key_at(i) {
            return Some(i);
        }
        i += 1;
    }
    None
}

/// Returns all the registered character set names, in the order of the
/// table.
pub fn all_names(registry: &CodesetRegistry) -> (names: Vec<String>)
    requires
        registry.wf(),
    ensures
        names@.map_values(|name: String| name@) == registry.codesets().keys(),
{
    let mut names: Vec<String> = Vec::new();
    let n: usize = registry.codesets.len();
    let mut i: usize = 0;
    while i < n
        invariant
            registry.wf(),
            n == registry.codesets().keys().len(),
            i <= n,
            names@.map_values(|name: String| name@) == registry.codesets().keys().take(i as int),
        decreases n - i,
    {
        let ghost before = names@;
        names.push(registry.codesets.key_at(i).clone());
        assert(names@.map_values(|name: String| name@) =~= before.map_values(
            |name: String| name@,
        ).push(registry.codesets().keys()[i as int]));
        i += 1;
    }
    names
}

/// A record that is found under a name carries that name, in a registry
/// whose records are stored under their own names.
pub proof fn lemma_found_record_carries_name(registry: CodesetRegistry, name: Seq<char>)
    requires
        registry.wf(),
        registry.filed_under_own_names(),
        registry.codesets().keys().contains(name),
    ensures
        registry.find(name) is Some,
        registry.find(name)->0.name@ == name,
{
    let i = registry.codesets().keys().index_of(name);
    lemma_assoc_at(registry.codesets().keys(), registry.codesets().values(), i);
}

/// A name that no record is stored under finds nothing.
pub proof fn lemma_unknown_name_finds_nothing(registry: CodesetRegistry, name: Seq<char>)
    requires
        registry.wf(),
        !registry.codesets().keys().contains(name),
    ensures
        registry.find(name) is None,
{
}

/// The registry holds as many records as the table has names, and every
/// name finds the record at its position.
pub proof fn lemma_every_name_resolves(registry: CodesetRegistry, i: int)
    requires
        registry.wf(),
        0 <= i < registry.codesets().keys().len(),
    ensures
        registry.codesets()@.dom().finite(),
        registry.codesets()@.dom().len() == registry.codesets().keys().len(),
        registry.find(registry.codesets().keys()[i]) == Some(registry.codesets().values()[i]),
{
    lemma_assoc_len(registry.codesets().keys(), registry.codesets().values());
    lemma_assoc_at(registry.codesets().keys(), registry.codesets().values(), i);
}

/// A lookup by name can be repeated: what it returns depends on the registry
/// and the name alone, so two results for one name are equal.
pub proof fn lemma_find_is_repeatable(
    registry: CodesetRegistry,
    name: Seq<char>,
    first: Option<CodesetInfo>,
    second: Option<CodesetInfo>,
)
    requires
        registry.wf(),
        match first {
            Some(record) => registry.find(name) == Some(record),
            None => registry.find(name) is None,
        },
        match second {
            Some(record) => registry.find(name) == Some(record),
            None => registry.find(name) is None,
        },
    ensures
        first == second,
{
}

} // verus!
