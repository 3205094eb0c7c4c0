//! Codes for the representation of currencies (ISO 4217).
//!
//! A currency is known by a 3-character alphabetic code, under which its
//! record is stored. Most currencies also have a numeric code, which an
//! index derived from the records resolves to the alphabetic code that the
//! record carries.

use crate::index::{
    all_distinct, derived, files_each, first_occurrences, lemma_all_distinct_push,
    lemma_derived_at, lemma_derived_push, lemma_distinct_files_each,
    lemma_first_occurrences_contains, lemma_first_occurrences_of_distinct,
    lemma_first_occurrences_push, lemma_first_repeat_extends, lemma_last_exists,
    lemma_report_is_none_iff_distinct, present_keys, reports_repeat,
};
use crate::store::{lemma_assoc_at, lemma_assoc_len, NumericStore, TextStore};
use vstd::prelude::*;

verus! {

/// A sub-division (minor currency unit) of a currency. The US Dollar, for
/// one, has a single sub-division: each 100th of a dollar is named a cent,
/// which is `Subdivision { exponent: 2, name: Some("cent") }`.
#[derive(Debug)]
pub struct Subdivision {
    /// The exponent, or scale, of the currency unit, which determines its
    /// value.
    pub exponent: i8,
    /// The name of the currency unit, if it has one.
    pub name: Option<String>,
}

/// A representation of registered currency data maintained by ISO.
#[derive(Debug)]
pub struct CurrencyInfo {
    /// The ISO 4217 registered 3-character currency code.
    pub alphabetic_code: String,
    /// The registered name, in English, of the currency.
    pub name: String,
    /// The registered numeric currency code, if it has one.
    pub numeric_code: Option<u16>,
    /// The symbol used to represent the currency, if known.
    pub symbol: Option<String>,
    /// The names of the entities, more or less the countries, that use this
    /// currency.
    pub standards_entities: Vec<String>,
    /// The possibly empty list of subdivisions of this currency.
    pub subdivisions: Vec<Subdivision>,
}

/// The numeric code of each record of a table, in the table's order.
pub open spec fn numeric_codes(currencies: TextStore<CurrencyInfo>) -> Seq<Option<u16>> {
    currencies.values().map_values(|currency: CurrencyInfo| currency.numeric_code)
}

/// The entity named `name` is among those that use `currency`. Names are
/// compared exactly.
pub open spec fn used_by(currency: CurrencyInfo, name: Seq<char>) -> bool {
    exists|i: int|
        0 <= i < currency.standards_entities@.len() && (
        #[trigger] currency.standards_entities@[i])@ == name
}

/// The alphabetic code that each record of a table carries, in the table's
/// order.
pub open spec fn own_codes(currencies: TextStore<CurrencyInfo>) -> Seq<Seq<char>> {
    currencies.values().map_values(|currency: CurrencyInfo| currency.alphabetic_code@)
}

/// Builds the index from numeric code to alphabetic code: for each record
/// of `currencies` that has a numeric code, in order, the alphabetic code
/// that the record carries is filed under the record's numeric code. Where
/// two records have the same numeric code the later one takes the place of
/// the earlier one in the index; the second result reports this, as the
/// position of the first record whose numeric code an earlier record has
/// too.
pub fn make_currency_lookup(currencies: &TextStore<CurrencyInfo>) -> (r: (
    NumericStore<String>,
    Option<usize>,
))
    requires
        currencies.wf(),
    ensures
        r.0.wf(),
        r.0.keys() == first_occurrences(numeric_codes(*currencies)),
        derived(r.0.targets(), numeric_codes(*currencies), own_codes(*currencies)),
        reports_repeat(numeric_codes(*currencies), r.1),
        r.1 is None <==> all_distinct(numeric_codes(*currencies)),
        r.1 is None ==> {
            &&& r.0.keys() == present_keys(numeric_codes(*currencies))
            &&& files_each(r.0.targets(), numeric_codes(*currencies), own_codes(*currencies))
        },
{
    let ghost alts = numeric_codes(*currencies);
    let ghost codes = own_codes(*currencies);
    let mut lookup: NumericStore<String> = NumericStore::new();
    let mut repeated: Option<usize> = None;
    let n: usize = currencies.len();
    let mut i: usize = 0;
    while i < n
        invariant
            currencies.wf(),
            alts == numeric_codes(*currencies),
            codes == own_codes(*currencies),
            n == currencies.keys().len(),
            i <= n,
            lookup.wf(),
            lookup.keys() == first_occurrences(alts.take(i as int)),
            derived(lookup.targets(), alts.take(i as int), codes.take(i as int)),
            reports_repeat(alts.take(i as int), repeated),
        decreases n - i,
    {
        let currency: &CurrencyInfo = currencies.value_at(i);
        let ghost before = lookup;
        proof {
            lemma_first_occurrences_push(alts.take(i as int), currency.numeric_code);
            lemma_derived_push(
                before.targets(),
                alts.take(i as int),
                codes.take(i as int),
                currency.numeric_code,
                currency.alphabetic_code@,
            );
            assert(alts.take(i as int + 1) =~= alts.take(i as int).push(currency.numeric_code));
            assert(codes.take(i as int + 1) =~= codes.take(i as int).push(
                currency.alphabetic_code@,
            ));
            assert(alts.take(i as int + 1).take(i as int) =~= alts.take(i as int));
        }
        match currency.numeric_code {
            Some(numeric) => {
                let target: String = currency.alphabetic_code.clone();
                let present: bool = lookup.insert(numeric, target);
                assert(lookup.targets() =~= before.targets().insert(numeric, target@));
                proof {
                    assert(present == alts.take(i as int).contains(Some(numeric))) by {
                        assert(before.targets().contains_key(numeric) == present);
                    }
                    match repeated {
                        Some(first) => {
                            lemma_first_repeat_extends(
                                alts.take(i as int + 1),
                                i as int,
                                first as int,
                            );
                        },
                        None => {
                            if present {
                                let j = choose|j: int|
                                    0 <= j < i && alts.take(i as int)[j] == Some(numeric);
                                let longer = alts.take(i as int + 1);
                                assert(longer[j] == longer[i as int]);
                            } else {
                                lemma_all_distinct_push(alts.take(i as int), Some(numeric));
                            }
                        },
                    }
                }
                if present && repeated.is_none() {
                    repeated = Some(i);
                }
            },
            None => {
                proof {
                    match repeated {
                        Some(first) => {
                            lemma_first_repeat_extends(
                                alts.take(i as int + 1),
                                i as int,
                                first as int,
                            );
                        },
                        None => {
                            lemma_all_distinct_push(alts.take(i as int), None);
                        },
                    }
                }
            },
        }
        i += 1;
    }
    proof {
        assert(alts.take(n as int) =~= alts);
        assert(codes.take(n as int) =~= codes);
        lemma_report_is_none_iff_distinct(alts, repeated);
        if repeated is None {
            lemma_first_occurrences_of_distinct(alts);
            lemma_distinct_files_each(lookup.targets(), alts, codes);
        }
    }
    (lookup, repeated)
}

/// The registry of currencies: the table of records by alphabetic code, and
/// the index from numeric code to alphabetic code that is derived from it.
pub struct CurrencyRegistry {
    currencies: TextStore<CurrencyInfo>,
    numeric_lookup: NumericStore<String>,
}

impl CurrencyRegistry {
    /// The table of records, keyed by alphabetic code.
    pub closed spec fn currencies(&self) -> TextStore<CurrencyInfo> {
        self.currencies
    }

    /// The index from numeric code to alphabetic code.
    pub closed spec fn numeric_index(&self) -> NumericStore<String> {
        self.numeric_lookup
    }

    /// Validity: both tables are valid, and the index is the one derived
    /// from the records.
    pub open spec fn wf(&self) -> bool {
        &&& self.currencies().wf()
        &&& self.numeric_index().wf()
        &&& self.numeric_index().keys() == first_occurrences(numeric_codes(self.currencies()))
        &&& derived(
            self.numeric_index().targets(),
            numeric_codes(self.currencies()),
            own_codes(self.currencies()),
        )
    }

    /// The record stored under the alphabetic code `code`.
    pub open spec fn find_alpha(&self, code: Seq<char>) -> Option<CurrencyInfo> {
        if self.currencies()@.contains_key(code) {
            Some(self.currencies()@[code])
        } else {
            None
        }
    }

    /// The record that the numeric code `code` resolves to: the index gives
    /// the alphabetic code, and the table gives the record stored under it.
    pub open spec fn find_numeric(&self, code: u16) -> Option<CurrencyInfo> {
        if self.numeric_index().targets().contains_key(code) {
            self.find_alpha(self.numeric_index().targets()[code])
        } else {
            None
        }
    }

    /// Every record is stored under the code that it carries itself.
    pub open spec fn filed_under_own_codes(&self) -> bool {
        own_codes(self.currencies()) == self.currencies().keys()
    }

    /// Builds the registry from the table of records. The second result is
    /// what the construction of the index reports: the position of the first
    /// record whose numeric code an earlier record has too, or `None` where
    /// no two records share a numeric code.
    pub fn new(currencies: TextStore<CurrencyInfo>) -> (r: (Self, Option<usize>))
        requires
            currencies.wf(),
        ensures
            r.0.wf(),
            r.0.currencies() == currencies,
            reports_repeat(numeric_codes(currencies), r.1),
            r.1 is None <==> all_distinct(numeric_codes(currencies)),
            r.1 is None ==> {
                &&& r.0.numeric_index().keys() == present_keys(numeric_codes(currencies))
                &&& files_each(
                    r.0.numeric_index().targets(),
                    numeric_codes(currencies),
                    own_codes(currencies),
                )
            },
    {
        let (numeric_lookup, repeated) = make_currency_lookup(&currencies);
        (CurrencyRegistry { currencies, numeric_lookup }, repeated)
    }
}

/// Looks up a currency by its ISO-4217 3-character identifier, returning
/// `None` if the code does not exist in the registry. The match is exact.
pub fn lookup_by_alpha<'a>(registry: &'a CurrencyRegistry, alphabetic_code: &str) -> (r: Option<
    &'a CurrencyInfo,
>)
    requires
        registry.wf(),
        alphabetic_code@.len() == 3,
    ensures
        match r {
            Some(currency) => registry.find_alpha(alphabetic_code@) == Some(*currency),
            None => registry.find_alpha(alphabetic_code@) is None,
        },
{
    registry.currencies.get(alphabetic_code)
}

/// Looks up a currency by its ISO-4217 numeric identifier, returning `None`
/// if the code does not exist in the registry: the index gives the
/// alphabetic code, under which the record is then looked up.
pub fn lookup_by_numeric<'a>(registry: &'a CurrencyRegistry, numeric_code: &u16) -> (r: Option<
    &'a CurrencyInfo,
>)
    requires
        registry.wf(),
    ensures
        match r {
            Some(currency) => registry.find_numeric(*numeric_code) == Some(*currency),
            None => registry.find_numeric(*numeric_code) is None,
        },
{
    match registry.numeric_lookup.get(*numeric_code) {
        Some(alphabetic_code) => registry.currencies.get(alphabetic_code.as_str()),
        None => None,
    }
}

/// Finds the first record, in the order of the table, that is stored under
/// a key other than the code that it carries itself. `None` means that every
/// record is stored under its own code.
pub fn find_misfiled(registry: &CurrencyRegistry) -> (r: Option<usize>)
    requires
        registry.wf(),
    ensures
        match r {
            Some(i) => {
                &&& i < registry.currencies().keys().len()
                &&& own_codes(registry.currencies())[i as int]
                    != registry.currencies().keys()[i as int]
                &&& own_codes(registry.currencies()).take(i as int)
                    == registry.currencies().keys().take(i as int)
            },
            None => registry.filed_under_own_codes(),
        },
{
    let ghost codes = own_codes(registry.currencies());
    let ghost keys = registry.currencies().keys();
    let n: usize = registry.currencies.len();
    let mut i: usize = 0;
    while i < n
        invariant
            registry.wf(),
            codes == own_codes(registry.currencies()),
            keys == registry.currencies().keys(),
            n == keys.len(),
            i <= n,
            codes.take(i as int) == keys.take(i as int),
        decreases n - i,
    {
        if registry.currencies.value_at(i).alphabetic_code != *registry.currencies.key_at(i) {
            return Some(i);
        }
        assert(codes.take(i as int + 1) =~= codes.take(i as int).push(keys[i as int]));
        assert(keys.take(i as int + 1) =~= keys.take(i as int).push(keys[i as int]));
        i += 1;
    }
    assert(codes.take(n as int) =~= codes);
    assert(keys.take(n as int) =~= keys);
    None
}

/// Tells whether the entity named `name` is among those that use `currency`.
pub fn is_used_by(currency: &CurrencyInfo, name: &str) -> (b: bool)
    ensures
        b == used_by(*currency, name@),
{
    let wanted: String = name.to_owned();
    let n: usize = currency.standards_entities.len();
    let mut i: usize = 0;
    while i < n
        invariant
            wanted@ == name@,
            n == currency.standards_entities@.len(),
            i <= n,
            forall|j: int| 0 <= j < i ==> (#[trigger] currency.standards_entities@[j])@ != name@,
        decreases n - i,
    {
        if currency.standards_entities[i] == wanted {
            return true;
        }
        i += 1;
    }
    false
}

/// Looks up all the currencies that are used by the entity named `name`:
/// every record whose list of entities holds exactly that name, in the
/// order of the table.
pub fn currencies_for_country_name<'a>(registry: &'a CurrencyRegistry, name: &str) -> (r: Vec<
    &'a CurrencyInfo,
>)
    requires
        registry.wf(),
    ensures
        r@.map_values(|currency: &CurrencyInfo| *currency) == registry.currencies().values().filter(
            |currency: CurrencyInfo| used_by(currency, name@),
        ),
{
    let ghost uses = |currency: CurrencyInfo| used_by(currency, name@);
    let ghost all = registry.currencies().values();
    let mut found: Vec<&'a CurrencyInfo> = Vec::new();
    let n: usize = registry.currencies.len();
    let mut i: usize = 0;
    proof {
        reveal(Seq::filter);
    }
    while i < n
        invariant
            registry.wf(),
            all == registry.currencies().values(),
            uses == |currency: CurrencyInfo| used_by(currency, name@),
            n == all.len(),
            i <= n,
            found@.map_values(|currency: &CurrencyInfo| *currency) == all.take(i as int).filter(
                uses,
            ),
        decreases n - i,
    {
        let currency: &'a CurrencyInfo = registry.currencies.value_at(i);
        proof {
            all.take(i as int).lemma_filter_push(*currency, uses);
            assert(all.take(i as int + 1) =~= all.take(i as int).push(*currency));
        }
        if is_used_by(currency, name) {
            found.push(currency);
        }
        i += 1;
    }
    assert(all.take(n as int) =~= all);
    found
}

/// Returns all the registered ISO-4217 3-character currency codes, in the
/// order of the table.
pub fn all_alpha_codes(registry: &CurrencyRegistry) -> (codes: Vec<String>)
    requires
        registry.wf(),
    ensures
        codes@.map_values(|code: String| code@) == registry.currencies().keys(),
{
    let mut codes: Vec<String> = Vec::new();
    let n: usize = registry.currencies.len();
    let mut i: usize = 0;
    while i < n
        invariant
            registry.wf(),
            n == registry.currencies().keys().len(),
            i <= n,
            codes@.map_values(|code: String| code@) == registry.currencies().keys().take(i as int),
        decreases n - i,
    {
        let ghost before = codes@;
        codes.push(registry.currencies.key_at(i).clone());
        assert(codes@.map_values(|code: String| code@) =~= before.map_values(
            |code: String| code@,
        ).push(registry.currencies().keys()[i as int]));
        i += 1;
    }
    codes
}

/// Returns all the registered ISO-4217 numeric currency codes, each once, in
/// the order in which they first occur in the table.
pub fn all_numeric_codes(registry: &CurrencyRegistry) -> (codes: Vec<u16>)
    requires
        registry.wf(),
    ensures
        codes@ == registry.numeric_index().keys(),
{
    let mut codes: Vec<u16> = Vec::new();
    let n: usize = registry.numeric_lookup.len();
    let mut i: usize = 0;
    while i < n
        invariant
            registry.wf(),
            n == registry.numeric_index().keys().len(),
            i <= n,
            codes@ == registry.numeric_index().keys().take(i as int),
        decreases n - i,
    {
        codes.push(registry.numeric_lookup.key_at(i));
        i += 1;
    }
    codes
}

/// A record that is found under an alphabetic code carries that code, in a
/// registry whose records are stored under their own codes.
pub proof fn lemma_found_record_carries_code(registry: CurrencyRegistry, code: Seq<char>)
    requires
        registry.wf(),
        registry.filed_under_own_codes(),
        registry.currencies().keys().contains(code),
    ensures
        registry.find_alpha(code) is Some,
        registry.find_alpha(code)->0.alphabetic_code@ == code,
{
    let i = registry.currencies().keys().index_of(code);
    lemma_assoc_at(registry.currencies().keys(), registry.currencies().values(), i);
    assert(own_codes(registry.currencies())[i] == code);
}

/// A numeric code that the index maps to an alphabetic code finds what the
/// alphabetic code finds, and some record carries both codes.
pub proof fn lemma_numeric_code_resolves(registry: CurrencyRegistry, numeric: u16, code: Seq<char>)
    requires
        registry.wf(),
        registry.numeric_index().targets().contains_key(numeric),
        registry.numeric_index().targets()[numeric] == code,
    ensures
        registry.find_numeric(numeric) == registry.find_alpha(code),
        exists|i: int|
            0 <= i < registry.currencies().keys().len() && (
            #[trigger] registry.currencies().values()[i]).numeric_code == Some(numeric)
                && registry.currencies().values()[i].alphabetic_code@ == code,
{
    let alts = numeric_codes(registry.currencies());
    assert(alts.contains(Some(numeric)));
    let i = lemma_last_exists(alts, numeric);
    assert(registry.currencies().values()[i].numeric_code == Some(numeric));
    assert(own_codes(registry.currencies())[i] == code);
}

/// In a registry whose records are stored under their own codes, a numeric
/// code of the index finds a record, and that record carries the numeric
/// code.
pub proof fn lemma_numeric_code_finds_its_record(registry: CurrencyRegistry, numeric: u16)
    requires
        registry.wf(),
        registry.filed_under_own_codes(),
        registry.numeric_index().targets().contains_key(numeric),
    ensures
        registry.find_numeric(numeric) is Some,
        registry.find_numeric(numeric)->0.numeric_code == Some(numeric),
        registry.find_numeric(numeric)->0.alphabetic_code@
            == registry.numeric_index().targets()[numeric],
{
    let alts = numeric_codes(registry.currencies());
    assert(alts.contains(Some(numeric)));
    let i = lemma_last_exists(alts, numeric);
    assert(own_codes(registry.currencies())[i] == registry.currencies().keys()[i]);
    lemma_assoc_at(registry.currencies().keys(), registry.currencies().values(), i);
}

/// The numeric code of every record that has one is in the index. In a registry whose
/// records are stored under their own codes, the numeric code of a record
/// that shares it with no other record finds that record.
pub proof fn lemma_record_found_by_numeric_code(registry: CurrencyRegistry, i: int, numeric: u16)
    requires
        registry.wf(),
        0 <= i < registry.currencies().keys().len(),
        registry.currencies().values()[i].numeric_code == Some(numeric),
    ensures
        registry.numeric_index().targets().contains_key(numeric),
        registry.filed_under_own_codes() && (forall|j: int|
            0 <= j < registry.currencies().keys().len() && j != i
                ==> registry.currencies().values()[j].numeric_code != Some(numeric))
            ==> registry.find_numeric(numeric) == Some(registry.currencies().values()[i]),
{
    let alts = numeric_codes(registry.currencies());
    assert(alts[i] == Some(numeric));
    assert(alts.contains(Some(numeric)));
    if registry.filed_under_own_codes() && forall|j: int|
        0 <= j < registry.currencies().keys().len() && j != i
            ==> registry.currencies().values()[j].numeric_code != Some(numeric) {
        lemma_derived_at(
            registry.numeric_index().targets(),
            alts,
            own_codes(registry.currencies()),
            i,
        );
        assert(own_codes(registry.currencies())[i] == registry.currencies().keys()[i]);
        lemma_assoc_at(registry.currencies().keys(), registry.currencies().values(), i);
    }
}

/// An alphabetic code that no record is stored under finds nothing, and
/// neither does a numeric code that no record carries.
pub proof fn lemma_unknown_code_finds_nothing(
    registry: CurrencyRegistry,
    code: Seq<char>,
    numeric: u16,
)
    requires
        registry.wf(),
    ensures
        !registry.currencies().keys().contains(code) ==> registry.find_alpha(code) is None,
        (forall|i: int|
            0 <= i < registry.currencies().keys().len()
                ==> registry.currencies().values()[i].numeric_code != Some(numeric))
            ==> registry.find_numeric(numeric) is None,
{
    let alts = numeric_codes(registry.currencies());
    if alts.contains(Some(numeric)) {
        let i = choose|i: int| 0 <= i < alts.len() && alts[i] == Some(numeric);
        assert(registry.currencies().values()[i].numeric_code == Some(numeric));
    }
}

/// The registry holds as many records as the table has keys, and every key
/// finds the record at its position.
pub proof fn lemma_every_alpha_code_resolves(registry: CurrencyRegistry, i: int)
    requires
        registry.wf(),
        0 <= i < registry.currencies().keys().len(),
    ensures
        registry.currencies()@.dom().finite(),
        registry.currencies()@.dom().len() == registry.currencies().keys().len(),
        registry.find_alpha(registry.currencies().keys()[i]) == Some(
            registry.currencies().values()[i],
        ),
{
    lemma_assoc_len(registry.currencies().keys(), registry.currencies().values());
    lemma_assoc_at(registry.currencies().keys(), registry.currencies().values(), i);
}

/// In a registry whose records are stored under their own codes, every
/// numeric code of the index finds a record, which carries that numeric
/// code.
pub proof fn lemma_every_numeric_code_resolves(registry: CurrencyRegistry, i: int)
    requires
        registry.wf(),
        registry.filed_under_own_codes(),
        0 <= i < registry.numeric_index().keys().len(),
    ensures
        registry.find_numeric(registry.numeric_index().keys()[i]) is Some,
        registry.find_numeric(registry.numeric_index().keys()[i])->0.numeric_code == Some(
            registry.numeric_index().keys()[i],
        ),
{
    let numeric = registry.numeric_index().keys()[i];
    lemma_assoc_at(registry.numeric_index().keys(), registry.numeric_index().values(), i);
    lemma_numeric_code_finds_its_record(registry, numeric);
}

/// The index lists the numeric codes that the records carry, and no other.
pub proof fn lemma_numeric_codes_are_those_of_records(registry: CurrencyRegistry, numeric: u16)
    requires
        registry.wf(),
    ensures
        registry.numeric_index().keys().contains(numeric) <==> exists|i: int|
            0 <= i < registry.currencies().keys().len() && (
            #[trigger] registry.currencies().values()[i]).numeric_code == Some(numeric),
{
    let alts = numeric_codes(registry.currencies());
    lemma_first_occurrences_contains(alts, numeric);
    if alts.contains(Some(numeric)) {
        let i = choose|i: int| 0 <= i < alts.len() && alts[i] == Some(numeric);
        assert(registry.currencies().values()[i].numeric_code == Some(numeric));
    }
    if exists|i: int|
        0 <= i < registry.currencies().keys().len() && (
        #[trigger] registry.currencies().values()[i]).numeric_code == Some(numeric) {
        let i = choose|i: int|
            0 <= i < registry.currencies().keys().len() && (
            #[trigger] registry.currencies().values()[i]).numeric_code == Some(numeric);
        assert(alts[i] == Some(numeric));
    }
}

/// A lookup by alphabetic code can be repeated: what it returns depends on the
/// registry and the code alone, so two results for one code are equal.
pub proof fn lemma_find_alpha_is_repeatable(
    registry: CurrencyRegistry,
    code: Seq<char>,
    first: Option<CurrencyInfo>,
    second: Option<CurrencyInfo>,
)
    requires
        registry.wf(),
        match first {
            Some(record) => registry.find_alpha(code) == Some(record),
            None => registry.find_alpha(code) is None,
        },
        match second {
            Some(record) => registry.find_alpha(code) == Some(record),
            None => registry.find_alpha(code) is None,
        },
    ensures
        first == second,
{
}

/// A lookup by numeric code can be repeated: what it returns depends on the
/// registry and the code alone, so two results for one code are equal.
pub proof fn lemma_find_numeric_is_repeatable(
    registry: CurrencyRegistry,
    code: u16,
    first: Option<CurrencyInfo>,
    second: Option<CurrencyInfo>,
)
    requires
        registry.wf(),
        match first {
            Some(record) => registry.find_numeric(code) == Some(record),
            None => registry.find_numeric(code) is None,
        },
        match second {
            Some(record) => registry.find_numeric(code) == Some(record),
            None => registry.find_numeric(code) is None,
        },
    ensures
        first == second,
{
}

} // verus!
