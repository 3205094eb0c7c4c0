//! Codes for the representation of names of languages (ISO 639).
//!
//! A language is known by a 3-character code, under which its record is
//! stored. Some languages also have a 2-character short code, which an index
//! derived from the records resolves to the 3-character code that the record
//! carries.

use crate::index::{
    all_distinct, derived, files_each, first_occurrences, lemma_all_distinct_push,
    lemma_derived_at, lemma_derived_push, lemma_distinct_files_each,
    lemma_first_occurrences_of_distinct, lemma_first_occurrences_push, lemma_first_repeat_extends,
    lemma_last_exists, lemma_report_is_none_iff_distinct, present_keys, reports_repeat,
};
use crate::store::{lemma_assoc_at, lemma_assoc_len, TextStore};
use vstd::prelude::*;

verus! {

/// The ISO 639 data identifies 3 classes of languages; each language is of
/// one of these classes only.
#[derive(Debug)]
pub enum LanguageClass {
    Individual,
    MacroLanguage,
    Special,
}

/// The type of a language, which concerns its current usage.
#[derive(Debug)]
pub enum LanguageType {
    Ancient,
    Constructed,
    Extinct,
    Historical,
    Living,
    Special,
}

/// A representation of registered language data maintained by ISO.
#[derive(Debug)]
pub struct LanguageInfo {
    /// The ISO 3-character language identifier.
    pub code: String,
    /// The reference name, in English, used by the standard.
    pub reference_name: String,
    /// The indigenous name, if captured in the standard.
    pub indigenous_name: Option<String>,
    /// Common aliases.
    pub other_names: Option<Vec<String>>,
    /// The code used for bibliographic purposes, if it differs.
    pub bibliographic_code: Option<String>,
    /// The code used for terminology purposes, if it differs.
    pub terminology_code: Option<String>,
    /// The ISO 2-character language identifier, if the language has one.
    pub short_code: Option<String>,
    /// The class of the language.
    pub class: LanguageClass,
    /// The type of the language.
    pub l_type: LanguageType,
    /// If `class` is `LanguageClass::MacroLanguage`, the family members of
    /// this language.
    pub family_members: Option<Vec<String>>,
}

/// The short code of a record, as an alternate key.
pub open spec fn short_code_of(language: LanguageInfo) -> Option<Seq<char>> {
    match language.short_code {
        Some(short_code) => Some(short_code@),
        None => None,
    }
}

/// The short code of each record of a table, in the table's order.
pub open spec fn short_codes(languages: TextStore<LanguageInfo>) -> Seq<Option<Seq<char>>> {
    languages.values().map_values(|language: LanguageInfo| short_code_of(language))
}

/// The 3-character code that each record of a table carries, in the table's
/// order.
pub open spec fn own_codes(languages: TextStore<LanguageInfo>) -> Seq<Seq<char>> {
    languages.values().map_values(|language: LanguageInfo| language.code@)
}

/// Builds the index from short code to 3-character code: for each record
/// of `languages` that has a short code, in order, the 3-character code that
/// the record carries is filed under the record's short code. Where two
/// records have the same short code the later one takes the place of the
/// earlier one in the index; the second result reports this, as the position
/// of the first record whose short code an earlier record has too.
pub fn make_language_lookup(languages: &TextStore<LanguageInfo>) -> (r: (
    TextStore<String>,
    Option<usize>,
))
    requires
        languages.wf(),
    ensures
        r.0.wf(),
        r.0.keys() == first_occurrences(short_codes(*languages)),
        derived(r.0.targets(), short_codes(*languages), own_codes(*languages)),
        reports_repeat(short_codes(*languages), r.1),
        r.1 is None <==> all_distinct(short_codes(*languages)),
        r.1 is None ==> {
            &&& r.0.keys() == present_keys(short_codes(*languages))
            &&& files_each(r.0.targets(), short_codes(*languages), own_codes(*languages))
        },
{
    let ghost alts = short_codes(*languages);
    let ghost codes = own_codes(*languages);
    let mut lookup: TextStore<String> = TextStore::new();
    let mut repeated: Option<usize> = None;
    let n: usize = languages.len();
    let mut i: usize = 0;
    while i < n
        invariant
            languages.wf(),
            alts == short_codes(*languages),
            codes == own_codes(*languages),
            n == languages.keys().len(),
            i <= n,
            lookup.wf(),
            lookup.keys() == first_occurrences(alts.take(i as int)),
            derived(lookup.targets(), alts.take(i as int), codes.take(i as int)),
            reports_repeat(alts.take(i as int), repeated),
        decreases n - i,
    {
        let language: &LanguageInfo = languages.value_at(i);
        let ghost before = lookup;
        proof {
            lemma_first_occurrences_push(alts.take(i as int), short_code_of(*language));
            lemma_derived_push(
                before.targets(),
                alts.take(i as int),
                codes.take(i as int),
                short_code_of(*language),
                language.code@,
            );
            assert(alts.take(i as int + 1) =~= alts.take(i as int).push(short_code_of(*language)));
            assert(codes.take(i as int + 1) =~= codes.take(i as int).push(language.code@));
            assert(alts.take(i as int + 1).take(i as int) =~= alts.take(i as int));
        }
        match &language.short_code {
            Some(own) => {
                let short_code: String = own.clone();
                let target: String = language.code.clone();
                let present: bool = lookup.insert(short_code, target);
                assert(lookup.targets() =~= before.targets().insert(short_code@, target@));
                proof {
                    assert(present == alts.take(i as int).contains(Some(short_code@))) by {
                        assert(before.targets().contains_key(short_code@) == present);
                    }
                    match repeated {
                        Some(first) => {
                            lemma_first_repeat_extends(
                                alts.take(i as int + 1),
                                i as int,
                                first as int,
                            );
                        },
                        None => {
                            if present {
                                let j = choose|j: int|
                                    0 <= j < i && alts.take(i as int)[j] == Some(short_code@);
                                let longer = alts.take(i as int + 1);
                                assert(longer[j] == longer[i as int]);
                            } else {
                                lemma_all_distinct_push(alts.take(i as int), Some(short_code@));
                            }
                        },
                    }
                }
                if present && repeated.is_none() {
                    repeated = Some(i);
                }
            },
            None => {
                proof {
                    match repeated {
                        Some(first) => {
                            lemma_first_repeat_extends(
                                alts.take(i as int + 1),
                                i as int,
                                first as int,
                            );
                        },
                        None => {
                            lemma_all_distinct_push(alts.take(i as int), None);
                        },
                    }
                }
            },
        }
        i += 1;
    }
    proof {
        assert(alts.take(n as int) =~= alts);
        assert(codes.take(n as int) =~= codes);
        lemma_report_is_none_iff_distinct(alts, repeated);
        if repeated is None {
            lemma_first_occurrences_of_distinct(alts);
            lemma_distinct_files_each(lookup.targets(), alts, codes);
        }
    }
    (lookup, repeated)
}

/// The registry of languages: the table of records by 3-character code, and
/// the index from short code to 3-character code that is derived from it.
pub struct LanguageRegistry {
    languages: TextStore<LanguageInfo>,
    lookup: TextStore<String>,
}

impl LanguageRegistry {
    /// The table of records, keyed by 3-character code.
    pub closed spec fn languages(&self) -> TextStore<LanguageInfo> {
        self.languages
    }

    /// The index from short code to 3-character code.
    pub closed spec fn short_index(&self) -> TextStore<String> {
        self.lookup
    }

    /// Validity: both tables are valid, and the index is the one derived
    /// from the records.
    pub open spec fn wf(&self) -> bool {
        &&& self.languages().wf()
        &&& self.short_index().wf()
        &&& self.short_index().keys() == first_occurrences(short_codes(self.languages()))
        &&& derived(
            self.short_index().targets(),
            short_codes(self.languages()),
            own_codes(self.languages()),
        )
    }

    /// The record stored under the 3-character code `code`.
    pub open spec fn find_long(&self, code: Seq<char>) -> Option<LanguageInfo> {
        if self.languages()@.contains_key(code) {
            Some(self.languages()@[code])
        } else {
            None
        }
    }

    /// The record that the short code `code` resolves to: the index gives the
    /// 3-character code, and the table gives the record stored under it.
    pub open spec fn find_short(&self, code: Seq<char>) -> Option<LanguageInfo> {
        if self.short_index().targets().contains_key(code) {
            self.find_long(self.short_index().targets()[code])
        } else {
            None
        }
    }

    /// The record that a code of 2 or 3 characters stands for.
    pub open spec fn find(&self, code: Seq<char>) -> Option<LanguageInfo> {
        if code.len() == 3 {
            self.find_long(code)
        } else if code.len() == 2 {
            self.find_short(code)
        } else {
            None
        }
    }

    /// Every record is stored under the code that it carries itself.
    pub open spec fn filed_under_own_codes(&self) -> bool {
        own_codes(self.languages()) == self.languages().keys()
    }

    /// Builds the registry from the table of records. The second result is
    /// what the construction of the index reports: the position of the first
    /// record whose short code an earlier record has too, or `None` where no
    /// two records share a short code.
    pub fn new(languages: TextStore<LanguageInfo>) -> (r: (Self, Option<usize>))
        requires
            languages.wf(),
        ensures
            r.0.wf(),
            r.0.languages() == languages,
            reports_repeat(short_codes(languages), r.1),
            r.1 is None <==> all_distinct(short_codes(languages)),
            r.1 is None ==> {
                &&& r.0.short_index().keys() == present_keys(short_codes(languages))
                &&& files_each(
                    r.0.short_index().targets(),
                    short_codes(languages),
                    own_codes(languages),
                )
            },
    {
        let (lookup, repeated) = make_language_lookup(&languages);
        (LanguageRegistry { languages, lookup }, repeated)
    }
}

/// Looks up a language by its 3-character code. The match is exact: no
/// normalization of case, no trimming.
pub fn lookup_by_long_code<'a>(registry: &'a LanguageRegistry, code: &str) -> (r: Option<
    &'a LanguageInfo,
>)
    requires
        registry.wf(),
        code@.len() == 3,
    ensures
        match r {
            Some(language) => registry.find_long(code@) == Some(*language),
            None => registry.find_long(code@) is None,
        },
{
    registry.languages.get(code)
}

/// Looks up a language by its 2-character short code: the index gives the
/// 3-character code, under which the record is then looked up.
pub fn lookup_by_short_code<'a>(registry: &'a LanguageRegistry, code: &str) -> (r: Option<
    &'a LanguageInfo,
>)
    requires
        registry.wf(),
        code@.len() == 2,
    ensures
        match r {
            Some(language) => registry.find_short(code@) == Some(*language),
            None => registry.find_short(code@) is None,
        },
{
    match registry.lookup.get(code) {
        Some(long_code) => registry.languages.get(long_code.as_str()),
        None => None,
    }
}

/// Looks up a language by its ISO-639 identifier, of 2 or of 3 characters,
/// returning `None` if the code does not exist in the registry.
pub fn lookup<'a>(registry: &'a LanguageRegistry, code: &str) -> (r: Option<&'a LanguageInfo>)
    requires
        registry.wf(),
        code@.len() == 2 || code@.len() == 3,
    ensures
        match r {
            Some(language) => registry.find(code@) == Some(*language),
            None => registry.find(code@) is None,
        },
{
    if code.unicode_len() == 3 {
        lookup_by_long_code(registry, code)
    } else {
        lookup_by_short_code(registry, code)
    }
}

/// Finds the first record, in the order of the table, that is stored under
/// a key other than the code that it carries itself. `None` means that every
/// record is stored under its own code.
pub fn find_misfiled(registry: &LanguageRegistry) -> (r: Option<usize>)
    requires
        registry.wf(),
    ensures
        match r {
            Some(i) => {
                &&& i < registry.languages().keys().len()
                &&& own_codes(registry.languages())[i as int]
                    != registry.languages().keys()[i as int]
                &&& own_codes(registry.languages()).take(i as int)
                    == registry.languages().keys().take(i as int)
            },
            None => registry.filed_under_own_codes(),
        },
{
    let n: usize = registry.languages.len();
    let mut i: usize = 0;
    while i < n
        invariant
            registry.wf(),
            n == registry.languages().keys().len(),
            i <= n,
            own_codes(registry.languages()).take(i as int) == registry.languages().keys().take(
                i as int,
            ),
        decreases n - i,
    {
        if registry.languages.value_at(i).code != *registry.languages.key_at(i) {
            return Some(i);
        }
        assert(own_codes(registry.languages()).take(i as int + 1) =~= own_codes(
            registry.languages(),
        ).take(i as int).push(registry.languages().keys()[i as int]));
        assert(registry.languages().keys().take(i as int + 1) =~= registry.languages().keys().take(
            i as int,
        ).push(registry.languages().keys()[i as int]));
        i += 1;
    }
    assert(own_codes(registry.languages()).take(n as int) =~= own_codes(registry.languages()));
    assert(registry.languages().keys().take(n as int) =~= registry.languages().keys());
    None
}

/// Returns all the registered ISO-639 3-character language codes, in the
/// order of the table.
pub fn all_codes(registry: &LanguageRegistry) -> (codes: Vec<String>)
    requires
        registry.wf(),
    ensures
        codes@.map_values(|code: String| code@) == registry.languages().keys(),
{
    let mut codes: Vec<String> = Vec::new();
    let n: usize = registry.languages.len();
    let mut i: usize = 0;
    while i < n
        invariant
            registry.wf(),
            n == registry.languages().keys().len(),
            i <= n,
            codes@.map_values(|code: String| code@) == registry.languages().keys().take(i as int),
        decreases n - i,
    {
        let ghost before = codes@;
        codes.push(registry.languages.key_at(i).clone());
        assert(codes@.map_values(|code: String| code@) =~= before.map_values(
            |code: String| code@,
        ).push(registry.languages().keys()[i as int]));
        i += 1;
    }
    codes
}

/// A record that is found under a 3-character code carries that code, in a
/// registry whose records are stored under their own codes.
pub proof fn lemma_found_record_carries_code(registry: LanguageRegistry, code: Seq<char>)
    requires
        registry.wf(),
        registry.filed_under_own_codes(),
        registry.languages().keys().contains(code),
    ensures
        registry.find_long(code) is Some,
        registry.find_long(code)->0.code@ == code,
{
    let i = registry.languages().keys().index_of(code);
    lemma_assoc_at(registry.languages().keys(), registry.languages().values(), i);
    assert(own_codes(registry.languages())[i] == code);
}

/// A short code that the index maps to a 3-character code finds what the
/// 3-character code finds, and some record carries both codes.
pub proof fn lemma_short_code_resolves(
    registry: LanguageRegistry,
    short_code: Seq<char>,
    code: Seq<char>,
)
    requires
        registry.wf(),
        registry.short_index().targets().contains_key(short_code),
        registry.short_index().targets()[short_code] == code,
    ensures
        registry.find_short(short_code) == registry.find_long(code),
        exists|i: int|
            0 <= i < registry.languages().keys().len() && (
            #[trigger] registry.languages().values()[i]).code@ == code && short_code_of(
                registry.languages().values()[i],
            ) == Some(short_code),
{
    let alts = short_codes(registry.languages());
    assert(alts.contains(Some(short_code)));
    let i = lemma_last_exists(alts, short_code);
    assert(short_code_of(registry.languages().values()[i]) == Some(short_code));
    assert(own_codes(registry.languages())[i] == code);
}

/// In a registry whose records are stored under their own codes, a short
/// code of the index finds a record, and that record carries the short code.
pub proof fn lemma_short_code_finds_its_record(registry: LanguageRegistry, short_code: Seq<char>)
    requires
        registry.wf(),
        registry.filed_under_own_codes(),
        registry.short_index().targets().contains_key(short_code),
    ensures
        registry.find_short(short_code) is Some,
        short_code_of(registry.find_short(short_code)->0) == Some(short_code),
        registry.find_short(short_code)->0.code@ == registry.short_index().targets()[short_code],
{
    let alts = short_codes(registry.languages());
    assert(alts.contains(Some(short_code)));
    let i = lemma_last_exists(alts, short_code);
    assert(own_codes(registry.languages())[i] == registry.languages().keys()[i]);
    lemma_assoc_at(registry.languages().keys(), registry.languages().values(), i);
}

/// The short code of every record that has one is in the index. In a
/// registry whose records are stored under their own codes, the short code
/// of a record that shares it with no other record finds that record.
pub proof fn lemma_record_found_by_short_code(
    registry: LanguageRegistry,
    i: int,
    short_code: Seq<char>,
)
    requires
        registry.wf(),
        0 <= i < registry.languages().keys().len(),
        short_code_of(registry.languages().values()[i]) == Some(short_code),
    ensures
        registry.short_index().targets().contains_key(short_code),
        registry.filed_under_own_codes() && (forall|j: int|
            0 <= j < registry.languages().keys().len() && j != i ==> short_code_of(
                registry.languages().values()[j],
            ) != Some(short_code)) ==> registry.find_short(short_code) == Some(
            registry.languages().values()[i],
        ),
{
    let alts = short_codes(registry.languages());
    assert(alts[i] == Some(short_code));
    assert(alts.contains(Some(short_code)));
    if registry.filed_under_own_codes() && forall|j: int|
        0 <= j < registry.languages().keys().len() && j != i ==> short_code_of(
            registry.languages().values()[j],
        ) != Some(short_code) {
        lemma_derived_at(
            registry.short_index().targets(),
            alts,
            own_codes(registry.languages()),
            i,
        );
        assert(own_codes(registry.languages())[i] == registry.languages().keys()[i]);
        lemma_assoc_at(registry.languages().keys(), registry.languages().values(), i);
    }
}

/// A code that no record is stored under finds nothing, and neither does a
/// short code that no record carries.
pub proof fn lemma_unknown_code_finds_nothing(registry: LanguageRegistry, code: Seq<char>)
    requires
        registry.wf(),
    ensures
        !registry.languages().keys().contains(code) ==> registry.find_long(code) is None,
        (forall|i: int|
            0 <= i < registry.languages().keys().len() ==> short_code_of(
                registry.languages().values()[i],
            ) != Some(code)) ==> registry.find_short(code) is None,
{
    let alts = short_codes(registry.languages());
    if alts.contains(Some(code)) {
        let i = choose|i: int| 0 <= i < alts.len() && alts[i] == Some(code);
        assert(short_code_of(registry.languages().values()[i]) == Some(code));
    }
}

/// The registry holds as many records as the table has keys, and every key
/// finds the record at its position.
pub proof fn lemma_every_code_resolves(registry: LanguageRegistry, i: int)
    requires
        registry.wf(),
        0 <= i < registry.languages().keys().len(),
    ensures
        registry.languages()@.dom().finite(),
        registry.languages()@.dom().len() == registry.languages().keys().len(),
        registry.find_long(registry.languages().keys()[i]) == Some(
            registry.languages().values()[i],
        ),
        registry.languages().keys()[i].len() == 3 ==> registry.find(registry.languages().keys()[i])
            == Some(registry.languages().values()[i]),
{
    lemma_assoc_len(registry.languages().keys(), registry.languages().values());
    lemma_assoc_at(registry.languages().keys(), registry.languages().values(), i);
}

/// A lookup by code can be repeated: what it returns depends on the registry
/// and the code alone, so two results for one code are equal.
pub proof fn lemma_find_is_repeatable(
    registry: LanguageRegistry,
    code: Seq<char>,
    first: Option<LanguageInfo>,
    second: Option<LanguageInfo>,
)
    requires
        registry.wf(),
        match first {
            Some(record) => registry.find(code) == Some(record),
            None => registry.find(code) is None,
        },
        match second {
            Some(record) => registry.find(code) == Some(record),
            None => registry.find(code) is None,
        },
    ensures
        first == second,
{
}

} // verus!
