//! Codes for the representation of names of scripts (ISO 15924).
//!
//! A script, a set of graphic characters used for the written form of one
//! or more languages, is known by a 4-character alphabetic code, under which
//! its record is stored, and by a numeric code, which an index derived from
//! the records resolves to the alphabetic code that the record carries.

use crate::index::{
    all_distinct, derived, files_each, first_occurrences, lemma_all_distinct_push,
    lemma_derived_at, lemma_derived_push, lemma_distinct_files_each,
    lemma_first_occurrences_contains, lemma_first_occurrences_distinct,
    lemma_first_occurrences_push, lemma_first_repeat_extends, lemma_last_exists,
    lemma_report_is_none_iff_distinct, reports_repeat,
};
use crate::store::{lemma_assoc_at, lemma_assoc_len, NumericStore, TextStore};
use vstd::prelude::*;

verus! {

/// A representation of registered script data maintained by ISO.
#[derive(Debug)]
pub struct ScriptInfo {
    /// The standard 4-character identifier for this script.
    pub alphabetic_code: String,
    /// The standard numeric identifier for this script.
    pub numeric_code: u16,
    /// The script name, in English.
    pub name: String,
    /// An alias for this script, if it has one.
    pub alias: Option<String>,
}

/// The numeric code of each record of a table, in the table's order.
pub open spec fn numeric_codes(scripts: TextStore<ScriptInfo>) -> Seq<Option<u16>> {
    scripts.values().map_values(|script: ScriptInfo| Some(script.numeric_code))
}

/// The numeric code that each record of a table carries, in the table's
/// order.
pub open spec fn own_numeric_codes(scripts: TextStore<ScriptInfo>) -> Seq<u16> {
    scripts.values().map_values(|script: ScriptInfo| script.numeric_code)
}

/// The alphabetic code that each record of a table carries, in the table's
/// order.
pub open spec fn own_codes(scripts: TextStore<ScriptInfo>) -> Seq<Seq<char>> {
    scripts.values().map_values(|script: ScriptInfo| script.alphabetic_code@)
}

/// Builds the index from numeric code to alphabetic code: for each record
/// of `scripts`, in order, the alphabetic code that the record carries is
/// filed under the record's numeric code. Where two records have the same
/// numeric code the later one takes the place of the earlier one in the
/// index; the second result reports this, as the position of the first
/// record whose numeric code an earlier record has too.
pub fn make_script_lookup(scripts: &TextStore<ScriptInfo>) -> (r: (
    NumericStore<String>,
    Option<usize>,
))
    requires
        scripts.wf(),
    ensures
        r.0.wf(),
        r.0.keys() == first_occurrences(numeric_codes(*scripts)),
        derived(r.0.targets(), numeric_codes(*scripts), own_codes(*scripts)),
        reports_repeat(numeric_codes(*scripts), r.1),
        r.1 is None <==> all_distinct(numeric_codes(*scripts)),
        r.1 is None ==> {
            &&& r.0.keys() == own_numeric_codes(*scripts)
            &&& files_each(r.0.targets(), numeric_codes(*scripts), own_codes(*scripts))
        },
{
    let ghost alts = numeric_codes(*scripts);
    let ghost codes = own_codes(*scripts);
    let mut lookup: NumericStore<String> = NumericStore::new();
    let mut repeated: Option<usize> = None;
    let n: usize = scripts.len();
    let mut i: usize = 0;
    while i < n
        invariant
            scripts.wf(),
            alts == numeric_codes(*scripts),
            codes == own_codes(*scripts),
            n == scripts.keys().len(),
            i <= n,
            lookup.wf(),
            lookup.keys() == first_occurrences(alts.take(i as int)),
            derived(lookup.targets(), alts.take(i as int), codes.take(i as int)),
            reports_repeat(alts.take(i as int), repeated),
        decreases n - i,
    {
        let script: &ScriptInfo = scripts.value_at(i);
        let ghost before = lookup;
        proof {
            lemma_first_occurrences_push(alts.take(i as int), Some(script.numeric_code));
            lemma_derived_push(
                before.targets(),
                alts.take(i as int),
                codes.take(i as int),
                Some(script.numeric_code),
                script.alphabetic_code@,
            );
            assert(alts.take(i as int + 1) =~= alts.take(i as int).push(Some(script.numeric_code)));
            assert(codes.take(i as int + 1) =~= codes.take(i as int).push(script.alphabetic_code@));
            assert(alts.take(i as int + 1).take(i as int) =~= alts.take(i as int));
        }
        let numeric: u16 = script.numeric_code;
        let target: String = script.alphabetic_code.clone();
        let present: bool = lookup.insert(numeric, target);
        assert(lookup.targets() =~= before.targets().insert(numeric, target@));
        proof {
            assert(present == alts.take(i as int).contains(Some(numeric))) by {
                assert(before.targets().contains_key(numeric) == present);
            }
            match repeated {
                Some(first) => {
                    lemma_first_repeat_extends(alts.take(i as int + 1), i as int, first as int);
                },
                None => {
                    if present {
                        let j = choose|j: int|
                            0 <= j < i && alts.take(i as int)[j] == Some(numeric);
                        let longer = alts.take(i as int + 1);
                        assert(longer[j] == longer[i as int]);
                    } else {
                        lemma_all_distinct_push(alts.take(i as int), Some(numeric));
                    }
                },
            }
        }
        if present && repeated.is_none() {
            repeated = Some(i);
        }
        i += 1;
    }
    proof {
        assert(alts.take(n as int) =~= alts);
        assert(codes.take(n as int) =~= codes);
        lemma_report_is_none_iff_distinct(alts, repeated);
        if repeated is None {
            let carried = own_numeric_codes(*scripts);
            assert(alts =~= carried.map_values(|key: u16| Some(key)));
            assert(carried.no_duplicates()) by {
                assert forall|i: int, j: int|
                    0 <= i < carried.len() && 0 <= j < carried.len() && i != j implies carried[i]
                    != carried[j] by {
                    assert(alts[i] != alts[j]);
                }
            }
            lemma_first_occurrences_distinct(alts, carried);
            lemma_distinct_files_each(lookup.targets(), alts, codes);
        }
    }
    (lookup, repeated)
}

/// The registry of scripts: the table of records by alphabetic code, and
/// the index from numeric code to alphabetic code that is derived from it.
pub struct ScriptRegistry {
    scripts: TextStore<ScriptInfo>,
    numeric_lookup: NumericStore<String>,
}

impl ScriptRegistry {
    /// The table of records, keyed by alphabetic code.
    pub closed spec fn scripts(&self) -> TextStore<ScriptInfo> {
        self.scripts
    }

    /// The index from numeric code to alphabetic code.
    pub closed spec fn numeric_index(&self) -> NumericStore<String> {
        self.numeric_lookup
    }

    /// Validity: both tables are valid, and the index is the one derived
    /// from the records.
    pub open spec fn wf(&self) -> bool {
        &&& self.scripts().wf()
        &&& self.numeric_index().wf()
        &&& self.numeric_index().keys() == first_occurrences(numeric_codes(self.scripts()))
        &&& derived(
            self.numeric_index().targets(),
            numeric_codes(self.scripts()),
            own_codes(self.scripts()),
        )
    }

    /// The record stored under the alphabetic code `code`.
    pub open spec fn find_alpha(&self, code: Seq<char>) -> Option<ScriptInfo> {
        if self.scripts()@.contains_key(code) {
            Some(self.scripts()@[code])
        } else {
            None
        }
    }

    /// The record that the numeric code `code` resolves to: the index gives
    /// the alphabetic code, and the table gives the record stored under it.
    pub open spec fn find_numeric(&self, code: u16) -> Option<ScriptInfo> {
        if self.numeric_index().targets().contains_key(code) {
            self.find_alpha(self.numeric_index().targets()[code])
        } else {
            None
        }
    }

    /// Every record is stored under the code that it carries itself.
    pub open spec fn filed_under_own_codes(&self) -> bool {
        own_codes(self.scripts()) == self.scripts().keys()
    }

    /// Builds the registry from the table of records. The second result is
    /// what the construction of the index reports: the position of the first
    /// record whose numeric code an earlier record has too, or `None` where
    /// no two records share a numeric code.
    pub fn new(scripts: TextStore<ScriptInfo>) -> (r: (Self, Option<usize>))
        requires
            scripts.wf(),
        ensures
            r.0.wf(),
            r.0.scripts() == scripts,
            reports_repeat(numeric_codes(scripts), r.1),
            r.1 is None <==> all_distinct(numeric_codes(scripts)),
            r.1 is None ==> {
                &&& r.0.numeric_index().keys() == own_numeric_codes(scripts)
                &&& files_each(
                    r.0.numeric_index().targets(),
                    numeric_codes(scripts),
                    own_codes(scripts),
                )
            },
    {
        let (numeric_lookup, repeated) = make_script_lookup(&scripts);
        (ScriptRegistry { scripts, numeric_lookup }, repeated)
    }
}

/// Looks up a script by its ISO-15924 4-character identifier, returning
/// `None` if the code does not exist in the registry. The match is exact.
pub fn lookup_by_alpha<'a>(registry: &'a ScriptRegistry, alphabetic_code: &str) -> (r: Option<
    &'a ScriptInfo,
>)
    requires
        registry.wf(),
        alphabetic_code@.len() == 4,
    ensures
        match r {
            Some(script) => registry.find_alpha(alphabetic_code@) == Some(*script),
            None => registry.find_alpha(alphabetic_code@) is None,
        },
{
    registry.scripts.get(alphabetic_code)
}

/// Looks up a script by its ISO-15924 numeric identifier, returning `None`
/// if the code does not exist in the registry: the index gives the
/// alphabetic code, under which the record is then looked up.
pub fn lookup_by_numeric<'a>(registry: &'a ScriptRegistry, numeric_code: &u16) -> (r: Option<
    &'a ScriptInfo,
>)
    requires
        registry.wf(),
    ensures
        match r {
            Some(script) => registry.find_numeric(*numeric_code) == Some(*script),
            None => registry.find_numeric(*numeric_code) is None,
        },
{
    match registry.numeric_lookup.get(*numeric_code) {
        Some(alphabetic_code) => registry.scripts.get(alphabetic_code.as_str()),
        None => None,
    }
}

/// Finds the first record, in the order of the table, that is stored under
/// a key other than the code that it carries itself. `None` means that every
/// record is stored under its own code.
pub fn find_misfiled(registry: &ScriptRegistry) -> (r: Option<usize>)
    requires
        registry.wf(),
    ensures
        match r {
            Some(i) => {
                &&& i < registry.scripts().keys().len()
                &&& own_codes(registry.scripts())[i as int]
                    != registry.scripts().keys()[i as int]
                &&& own_codes(registry.scripts()).take(i as int)
                    == registry.scripts().keys().take(i as int)
            },
            None => registry.filed_under_own_codes(),
        },
{
    let ghost codes = own_codes(registry.scripts());
    let ghost keys = registry.scripts().keys();
    let n: usize = registry.scripts.len();
    let mut i: usize = 0;
    while i < n
        invariant
            registry.wf(),
            codes == own_codes(registry.scripts()),
            keys == registry.scripts().keys(),
            n == keys.len(),
            i <= n,
            codes.take(i as int) == keys.take(i as int),
        decreases n - i,
    {
        if registry.scripts.value_at(i).alphabetic_code != *registry.scripts.key_at(i) {
            return Some(i);
        }
        assert(codes.take(i as int + 1) =~= codes.take(i as int).push(keys[i as int]));
        assert(keys.take(i as int + 1) =~= keys.take(i as int).push(keys[i as int]));
        i += 1;
    }
    assert(codes.take(n as int) =~= codes);
    assert(keys.take(n as int) =~= keys);
    None
}

/// Returns all the registered ISO-15924 4-character script codes, in the
/// order of the table.
pub fn all_alpha_codes(registry: &ScriptRegistry) -> (codes: Vec<String>)
    requires
        registry.wf(),
    ensures
        codes@.map_values(|code: String| code@) == registry.scripts().keys(),
{
    let mut codes: Vec<String> = Vec::new();
    let n: usize = registry.scripts.len();
    let mut i: usize = 0;
    while i < n
        invariant
            registry.wf(),
            n == registry.scripts().keys().len(),
            i <= n,
            codes@.map_values(|code: String| code@) == registry.scripts().keys().take(i as int),
        decreases n - i,
    {
        let ghost before = codes@;
        codes.push(registry.scripts.key_at(i).clone());
        assert(codes@.map_values(|code: String| code@) =~= before.map_values(
            |code: String| code@,
        ).push(registry.scripts().keys()[i as int]));
        i += 1;
    }
    codes
}

/// Returns all the registered ISO-15924 numeric script codes, each once, in
/// the order in which they first occur in the table.
pub fn all_numeric_codes(registry: &ScriptRegistry) -> (codes: Vec<u16>)
    requires
        registry.wf(),
    ensures
        codes@ == registry.numeric_index().keys(),
{
    let mut codes: Vec<u16> = Vec::new();
    let n: usize = registry.numeric_lookup.len();
    let mut i: usize = 0;
    while i < n
        invariant
            registry.wf(),
            n == registry.numeric_index().keys().len(),
            i <= n,
            codes@ == registry.numeric_index().keys().take(i as int),
        decreases n - i,
    {
        codes.push(registry.numeric_lookup.key_at(i));
        i += 1;
    }
    codes
}

/// A record that is found under an alphabetic code carries that code, in a
/// registry whose records are stored under their own codes.
pub proof fn lemma_found_record_carries_code(registry: ScriptRegistry, code: Seq<char>)
    requires
        registry.wf(),
        registry.filed_under_own_codes(),
        registry.scripts().keys().contains(code),
    ensures
        registry.find_alpha(code) is Some,
        registry.find_alpha(code)->0.alphabetic_code@ == code,
{
    let i = registry.scripts().keys().index_of(code);
    lemma_assoc_at(registry.scripts().keys(), registry.scripts().values(), i);
    assert(own_codes(registry.scripts())[i] == code);
}

/// A numeric code that the index maps to an alphabetic code finds what the
/// alphabetic code finds, and some record carries both codes.
pub proof fn lemma_numeric_code_resolves(registry: ScriptRegistry, numeric: u16, code: Seq<char>)
    requires
        registry.wf(),
        registry.numeric_index().targets().contains_key(numeric),
        registry.numeric_index().targets()[numeric] == code,
    ensures
        registry.find_numeric(numeric) == registry.find_alpha(code),
        exists|i: int|
            0 <= i < registry.scripts().keys().len() && (
            #[trigger] registry.scripts().values()[i]).numeric_code == numeric
                && registry.scripts().values()[i].alphabetic_code@ == code,
{
    let alts = numeric_codes(registry.scripts());
    assert(alts.contains(Some(numeric)));
    let i = lemma_last_exists(alts, numeric);
    assert(registry.scripts().values()[i].numeric_code == numeric);
    assert(own_codes(registry.scripts())[i] == code);
}

/// In a registry whose records are stored under their own codes, a numeric
/// code of the index finds a record, and that record carries the numeric
/// code.
pub proof fn lemma_numeric_code_finds_its_record(registry: ScriptRegistry, numeric: u16)
    requires
        registry.wf(),
        registry.filed_under_own_codes(),
        registry.numeric_index().targets().contains_key(numeric),
    ensures
        registry.find_numeric(numeric) is Some,
        registry.find_numeric(numeric)->0.numeric_code == numeric,
        registry.find_numeric(numeric)->0.alphabetic_code@
            == registry.numeric_index().targets()[numeric],
{
    let alts = numeric_codes(registry.scripts());
    assert(alts.contains(Some(numeric)));
    let i = lemma_last_exists(alts, numeric);
    assert(own_codes(registry.scripts())[i] == registry.scripts().keys()[i]);
    lemma_assoc_at(registry.scripts().keys(), registry.scripts().values(), i);
}

/// The numeric code of every record is in the index. In a registry whose
/// records are stored under their own codes, the numeric code of a record
/// that shares it with no other record finds that record.
pub proof fn lemma_record_found_by_numeric_code(registry: ScriptRegistry, i: int, numeric: u16)
    requires
        registry.wf(),
        0 <= i < registry.scripts().keys().len(),
        registry.scripts().values()[i].numeric_code == numeric,
    ensures
        registry.numeric_index().targets().contains_key(numeric),
        registry.filed_under_own_codes() && (forall|j: int|
            0 <= j < registry.scripts().keys().len() && j != i
                ==> registry.scripts().values()[j].numeric_code != numeric)
            ==> registry.find_numeric(numeric) == Some(registry.scripts().values()[i]),
{
    let alts = numeric_codes(registry.scripts());
    assert(alts[i] == Some(numeric));
    assert(alts.contains(Some(numeric)));
    if registry.filed_under_own_codes() && forall|j: int|
        0 <= j < registry.scripts().keys().len() && j != i
            ==> registry.scripts().values()[j].numeric_code != numeric {
        lemma_derived_at(
            registry.numeric_index().targets(),
            alts,
            own_codes(registry.scripts()),
            i,
        );
        assert(own_codes(registry.scripts())[i] == registry.scripts().keys()[i]);
        lemma_assoc_at(registry.scripts().keys(), registry.scripts().values(), i);
    }
}

/// An alphabetic code that no record is stored under finds nothing, and
/// neither does a numeric code that no record carries.
pub proof fn lemma_unknown_code_finds_nothing(
    registry: ScriptRegistry,
    code: Seq<char>,
    numeric: u16,
)
    requires
        registry.wf(),
    ensures
        !registry.scripts().keys().contains(code) ==> registry.find_alpha(code) is None,
        (forall|i: int|
            0 <= i < registry.scripts().keys().len()
                ==> registry.scripts().values()[i].numeric_code != numeric)
            ==> registry.find_numeric(numeric) is None,
{
    let alts = numeric_codes(registry.scripts());
    if alts.contains(Some(numeric)) {
        let i = choose|i: int| 0 <= i < alts.len() && alts[i] == Some(numeric);
        assert(registry.scripts().values()[i].numeric_code == numeric);
    }
}

/// The registry holds as many records as the table has keys, and every key
/// finds the record at its position.
pub proof fn lemma_every_alpha_code_resolves(registry: ScriptRegistry, i: int)
    requires
        registry.wf(),
        0 <= i < registry.scripts().keys().len(),
    ensures
        registry.scripts()@.dom().finite(),
        registry.scripts()@.dom().len() == registry.scripts().keys().len(),
        registry.find_alpha(registry.scripts().keys()[i]) == Some(
            registry.scripts().values()[i],
        ),
{
    lemma_assoc_len(registry.scripts().keys(), registry.scripts().values());
    lemma_assoc_at(registry.scripts().keys(), registry.scripts().values(), i);
}

/// In a registry whose records are stored under their own codes, every
/// numeric code of the index finds a record, which carries that numeric
/// code.
pub proof fn lemma_every_numeric_code_resolves(registry: ScriptRegistry, i: int)
    requires
        registry.wf(),
        registry.filed_under_own_codes(),
        0 <= i < registry.numeric_index().keys().len(),
    ensures
        registry.find_numeric(registry.numeric_index().keys()[i]) is Some,
        registry.find_numeric(registry.numeric_index().keys()[i])->0.numeric_code 
            == registry.numeric_index().keys()[i],
{
    let numeric = registry.numeric_index().keys()[i];
    lemma_assoc_at(registry.numeric_index().keys(), registry.numeric_index().values(), i);
    lemma_numeric_code_finds_its_record(registry, numeric);
}

/// The index lists the numeric codes that the records carry, and no other.
pub proof fn lemma_numeric_codes_are_those_of_records(registry: ScriptRegistry, numeric: u16)
    requires
        registry.wf(),
    ensures
        registry.numeric_index().keys().contains(numeric) <==> exists|i: int|
            0 <= i < registry.scripts().keys().len() && (
            #[trigger] registry.scripts().values()[i]).numeric_code == numeric,
{
    let alts = numeric_codes(registry.scripts());
    lemma_first_occurrences_contains(alts, numeric);
    if alts.contains(Some(numeric)) {
        let i = choose|i: int| 0 <= i < alts.len() && alts[i] == Some(numeric);
        assert(registry.scripts().values()[i].numeric_code == numeric);
    }
    if exists|i: int|
        0 <= i < registry.scripts().keys().len() && (
        #[trigger] registry.scripts().values()[i]).numeric_code == numeric {
        let i = choose|i: int|
            0 <= i < registry.scripts().keys().len() && (
            #[trigger] registry.scripts().values()[i]).numeric_code == numeric;
        assert(alts[i] == Some(numeric));
    }
}

/// A lookup by alphabetic code can be repeated: what it returns depends on the
/// registry and the code alone, so two results for one code are equal.
pub proof fn lemma_find_alpha_is_repeatable(
    registry: ScriptRegistry,
    code: Seq<char>,
    first: Option<ScriptInfo>,
    second: Option<ScriptInfo>,
)
    requires
        registry.wf(),
        match first {
            Some(record) => registry.find_alpha(code) == Some(record),
            None => registry.find_alpha(code) is None,
        },
        match second {
            Some(record) => registry.find_alpha(code) == Some(record),
            None => registry.find_alpha(code) is None,
        },
    ensures
        first == second,
{
}

/// A lookup by numeric code can be repeated: what it returns depends on the
/// registry and the code alone, so two results for one code are equal.
pub proof fn lemma_find_numeric_is_repeatable(
    registry: ScriptRegistry,
    code: u16,
    first: Option<ScriptInfo>,
    second: Option<ScriptInfo>,
)
    requires
        registry.wf(),
        match first {
            Some(record) => registry.find_numeric(code) == Some(record),
            None => registry.find_numeric(code) is None,
        },
        match second {
            Some(record) => registry.find_numeric(code) == Some(record),
            None => registry.find_numeric(code) is None,
        },
    ensures
        first == second,
{
}

} // verus!
