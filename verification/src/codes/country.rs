//! Codes for the representation of names of countries (ISO 3166).
//!
//! A country is known by a 3-character code, under which its record is
//! stored, and by a 2-character short code, which an index derived from the
//! records resolves to the 3-character code that the record carries.

use crate::index::{
    all_distinct, derived, files_each, first_occurrences, lemma_all_distinct_push,
    lemma_derived_at, lemma_derived_push, lemma_distinct_files_each,
    lemma_first_occurrences_distinct, lemma_first_occurrences_push, lemma_first_repeat_extends,
    lemma_last_exists, lemma_report_is_none_iff_distinct, reports_repeat,
};
use crate::store::{lemma_assoc_at, lemma_assoc_len, TextStore};
use vstd::prelude::*;

verus! {

/// A representation of registered country data maintained by ISO.
#[derive(Debug)]
pub struct CountryInfo {
    /// The ISO-3166 3-character identifier of the country. This is the
    /// primary identifier.
    pub code: String,
    /// The ISO-3166 2-character identifier of the country.
    pub short_code: String,
    /// The numeric code of the region that represents the country.
    pub country_code: u16,
    /// The numeric code of the region the country belongs to, if any.
    pub region_code: Option<u16>,
    /// The numeric code of the sub-region the country belongs to, if any.
    pub sub_region_code: Option<u16>,
    /// The numeric code of the intermediate region the country belongs to,
    /// if any.
    pub intermediate_region_code: Option<u16>,
}

/// The short code of each record of a table as an alternate key, in the
/// table's order.
pub open spec fn short_codes(countries: TextStore<CountryInfo>) -> Seq<Option<Seq<char>>> {
    countries.values().map_values(|country: CountryInfo| Some(country.short_code@))
}

/// The short code that each record of a table carries, in the table's
/// order.
pub open spec fn own_short_codes(countries: TextStore<CountryInfo>) -> Seq<Seq<char>> {
    countries.values().map_values(|country: CountryInfo| country.short_code@)
}

/// The 3-character code that each record of a table carries, in the table's
/// order.
pub open spec fn own_codes(countries: TextStore<CountryInfo>) -> Seq<Seq<char>> {
    countries.values().map_values(|country: CountryInfo| country.code@)
}

/// Builds the index from short code to 3-character code: for each record
/// of `countries`, in order, the 3-character code that the record carries is
/// filed under the record's short code. Where two records have the same
/// short code the later one takes the place of the earlier one in the index;
/// the second result reports this, as the position of the first record whose
/// short code an earlier record has too.
pub fn make_country_lookup(countries: &TextStore<CountryInfo>) -> (r: (
    TextStore<String>,
    Option<usize>,
))
    requires
        countries.wf(),
    ensures
        r.0.wf(),
        r.0.keys() == first_occurrences(short_codes(*countries)),
        derived(r.0.targets(), short_codes(*countries), own_codes(*countries)),
        reports_repeat(short_codes(*countries), r.1),
        r.1 is None <==> all_distinct(short_codes(*countries)),
        r.1 is None ==> {
            &&& r.0.keys() == own_short_codes(*countries)
            &&& files_each(r.0.targets(), short_codes(*countries), own_codes(*countries))
        },
{
    let ghost alts = short_codes(*countries);
    let ghost codes = own_codes(*countries);
    let mut lookup: TextStore<String> = TextStore::new();
    let mut repeated: Option<usize> = None;
    let n: usize = countries.len();
    let mut i: usize = 0;
    while i < n
        invariant
            countries.wf(),
            alts == short_codes(*countries),
            codes == own_codes(*countries),
            n == countries.keys().len(),
            i <= n,
            lookup.wf(),
            lookup.keys() == first_occurrences(alts.take(i as int)),
            derived(lookup.targets(), alts.take(i as int), codes.take(i as int)),
            reports_repeat(alts.take(i as int), repeated),
        decreases n - i,
    {
        let country: &CountryInfo = countries.value_at(i);
        let ghost before = lookup;
        let short_code: String = country.short_code.clone();
        let target: String = country.code.clone();
        proof {
            lemma_first_occurrences_push(alts.take(i as int), Some(short_code@));
            lemma_derived_push(
                before.targets(),
                alts.take(i as int),
                codes.take(i as int),
                Some(short_code@),
                target@,
            );
            assert(alts.take(i as int + 1) =~= alts.take(i as int).push(Some(short_code@)));
            assert(codes.take(i as int + 1) =~= codes.take(i as int).push(target@));
            assert(alts.take(i as int + 1).take(i as int) =~= alts.take(i as int));
        }
        let present: bool = lookup.insert(short_code, target);
        assert(lookup.targets() =~= before.targets().insert(short_code@, target@));
        proof {
            assert(present == alts.take(i as int).contains(Some(short_code@))) by {
                assert(before.targets().contains_key(short_code@) == present);
            }
            match repeated {
                Some(first) => {
                    lemma_first_repeat_extends(alts.take(i as int + 1), i as int, first as int);
                },
                None => {
                    if present {
                        let j = choose|j: int|
                            0 <= j < i && alts.take(i as int)[j] == Some(short_code@);
                        let longer = alts.take(i as int + 1);
                        assert(longer[j] == longer[i as int]);
                    } else {
                        lemma_all_distinct_push(alts.take(i as int), Some(short_code@));
                    }
                },
            }
        }
        if present && repeated.is_none() {
            repeated = Some(i);
        }
        i += 1;
    }
    proof {
        assert(alts.take(n as int) =~= alts);
        assert(codes.take(n as int) =~= codes);
        lemma_report_is_none_iff_distinct(alts, repeated);
        if repeated is None {
            let carried = own_short_codes(*countries);
            assert(alts =~= carried.map_values(|key: Seq<char>| Some(key)));
            assert(carried.no_duplicates()) by {
                assert forall|i: int, j: int|
                    0 <= i < carried.len() && 0 <= j < carried.len() && i != j implies carried[i]
                    != carried[j] by {
                    assert(alts[i] != alts[j]);
                }
            }
            lemma_first_occurrences_distinct(alts, carried);
            lemma_distinct_files_each(lookup.targets(), alts, codes);
        }
    }
    (lookup, repeated)
}

/// The registry of countries: the table of records by 3-character code, and
/// the index from short code to 3-character code that is derived from it.
pub struct CountryRegistry {
    countries: TextStore<CountryInfo>,
    lookup: TextStore<String>,
}

impl CountryRegistry {
    /// The table of records, keyed by 3-character code.
    pub closed spec fn countries(&self) -> TextStore<CountryInfo> {
        self.countries
    }

    /// The index from short code to 3-character code.
    pub closed spec fn short_index(&self) -> TextStore<String> {
        self.lookup
    }

    /// Validity: both tables are valid, and the index is the one derived
    /// from the records.
    pub open spec fn wf(&self) -> bool {
        &&& self.countries().wf()
        &&& self.short_index().wf()
        &&& self.short_index().keys() == first_occurrences(short_codes(self.countries()))
        &&& derived(
            self.short_index().targets(),
            short_codes(self.countries()),
            own_codes(self.countries()),
        )
    }

    /// The record stored under the 3-character code `code`.
    pub open spec fn find_long(&self, code: Seq<char>) -> Option<CountryInfo> {
        if self.countries()@.contains_key(code) {
            Some(self.countries()@[code])
        } else {
            None
        }
    }

    /// The record that the short code `code` resolves to: the index gives the
    /// 3-character code, and the table gives the record stored under it.
    pub open spec fn find_short(&self, code: Seq<char>) -> Option<CountryInfo> {
        if self.short_index().targets().contains_key(code) {
            self.find_long(self.short_index().targets()[code])
        } else {
            None
        }
    }

    /// The record that a code of 2 or 3 characters stands for.
    pub open spec fn find(&self, code: Seq<char>) -> Option<CountryInfo> {
        if code.len() == 3 {
            self.find_long(code)
        } else if code.len() == 2 {
            self.find_short(code)
        } else {
            None
        }
    }

    /// Every record is stored under the code that it carries itself.
    pub open spec fn filed_under_own_codes(&self) -> bool {
        own_codes(self.countries()) == self.countries().keys()
    }

    /// Builds the registry from the table of records. The second result is
    /// what the construction of the index reports: the position of the first
    /// record whose short code an earlier record has too, or `None` where no
    /// two records share a short code.
    pub fn new(countries: TextStore<CountryInfo>) -> (r: (Self, Option<usize>))
        requires
            countries.wf(),
        ensures
            r.0.wf(),
            r.0.countries() == countries,
            reports_repeat(short_codes(countries), r.1),
            r.1 is None <==> all_distinct(short_codes(countries)),
            r.1 is None ==> {
                &&& r.0.short_index().keys() == own_short_codes(countries)
                &&& files_each(
                    r.0.short_index().targets(),
                    short_codes(countries),
                    own_codes(countries),
                )
            },
    {
        let (lookup, repeated) = make_country_lookup(&countries);
        (CountryRegistry { countries, lookup }, repeated)
    }
}

/// Looks up a country by its 3-character code. The match is exact: no
/// normalization of case, no trimming.
pub fn lookup_by_long_code<'a>(registry: &'a CountryRegistry, code: &str) -> (r: Option<
    &'a CountryInfo,
>)
    requires
        registry.wf(),
        code@.len() == 3,
    ensures
        match r {
            Some(country) => registry.find_long(code@) == Some(*country),
            None => registry.find_long(code@) is None,
        },
{
    registry.countries.get(code)
}

/// Looks up a country by its 2-character short code: the index gives the
/// 3-character code, under which the record is then looked up.
pub fn lookup_by_short_code<'a>(registry: &'a CountryRegistry, code: &str) -> (r: Option<
    &'a CountryInfo,
>)
    requires
        registry.wf(),
        code@.len() == 2,
    ensures
        match r {
            Some(country) => registry.find_short(code@) == Some(*country),
            None => registry.find_short(code@) is None,
        },
{
    match registry.lookup.get(code) {
        Some(long_code) => registry.countries.get(long_code.as_str()),
        None => None,
    }
}

/// Looks up a country by its ISO-3166 identifier, of 2 or of 3 characters,
/// returning `None` if the code does not exist in the registry.
pub fn lookup<'a>(registry: &'a CountryRegistry, code: &str) -> (r: Option<&'a CountryInfo>)
    requires
        registry.wf(),
        code@.len() == 2 || code@.len() == 3,
    ensures
        match r {
            Some(country) => registry.find(code@) == Some(*country),
            None => registry.find(code@) is None,
        },
{
    if code.unicode_len() == 3 {
        lookup_by_long_code(registry, code)
    } else {
        lookup_by_short_code(registry, code)
    }
}

/// Finds the first record, in the order of the table, that is stored under
/// a key other than the code that it carries itself. `None` means that every
/// record is stored under its own code.
pub fn find_misfiled(registry: &CountryRegistry) -> (r: Option<usize>)
    requires
        registry.wf(),
    ensures
        match r {
            Some(i) => {
                &&& i < registry.countries().keys().len()
                &&& own_codes(registry.countries())[i as int]
                    != registry.countries().keys()[i as int]
                &&& own_codes(registry.countries()).take(i as int)
                    == registry.countries().keys().take(i as int)
            },
            None => registry.filed_under_own_codes(),
        },
{
    let n: usize = registry.countries.len();
    let mut i: usize = 0;
    while i < n
        invariant
            registry.wf(),
            n == registry.countries().keys().len(),
            i <= n,
            own_codes(registry.countries()).take(i as int) == registry.countries().keys().take(
                i as int,
            ),
        decreases n - i,
    {
        if registry.countries.value_at(i).code != *registry.countries.key_at(i) {
            return Some(i);
        }
        assert(own_codes(registry.countries()).take(i as int + 1) =~= own_codes(
            registry.countries(),
        ).take(i as int).push(registry.countries().keys()[i as int]));
        assert(registry.countries().keys().take(i as int + 1) =~= registry.countries().keys().take(
            i as int,
        ).push(registry.countries().keys()[i as int]));
        i += 1;
    }
    assert(own_codes(registry.countries()).take(n as int) =~= own_codes(registry.countries()));
    assert(registry.countries().keys().take(n as int) =~= registry.countries().keys());
    None
}

/// Returns all the registered ISO-3166 3-character country codes, in the
/// order of the table.
pub fn all_codes(registry: &CountryRegistry) -> (codes: Vec<String>)
    requires
        registry.wf(),
    ensures
        codes@.map_values(|code: String| code@) == registry.countries().keys(),
{
    let mut codes: Vec<String> = Vec::new();
    let n: usize = registry.countries.len();
    let mut i: usize = 0;
    while i < n
        invariant
            registry.wf(),
            n == registry.countries().keys().len(),
            i <= n,
            codes@.map_values(|code: String| code@) == registry.countries().keys().take(i as int),
        decreases n - i,
    {
        let ghost before = codes@;
        codes.push(registry.countries.key_at(i).clone());
        assert(codes@.map_values(|code: String| code@) =~= before.map_values(
            |code: String| code@,
        ).push(registry.countries().keys()[i as int]));
        i += 1;
    }
    codes
}

/// A record that is found under a 3-character code carries that code, in a
/// registry whose records are stored under their own codes.
pub proof fn lemma_found_record_carries_code(registry: CountryRegistry, code: Seq<char>)
    requires
        registry.wf(),
        registry.filed_under_own_codes(),
        registry.countries().keys().contains(code),
    ensures
        registry.find_long(code) is Some,
        registry.find_long(code)->0.code@ == code,
{
    let i = registry.countries().keys().index_of(code);
    lemma_assoc_at(registry.countries().keys(), registry.countries().values(), i);
    assert(own_codes(registry.countries())[i] == code);
}

/// A short code that the index maps to a 3-character code finds what the
/// 3-character code finds, and some record carries both codes.
pub proof fn lemma_short_code_resolves(
    registry: CountryRegistry,
    short_code: Seq<char>,
    code: Seq<char>,
)
    requires
        registry.wf(),
        registry.short_index().targets().contains_key(short_code),
        registry.short_index().targets()[short_code] == code,
    ensures
        registry.find_short(short_code) == registry.find_long(code),
        exists|i: int|
            0 <= i < registry.countries().keys().len() && (
            #[trigger] registry.countries().values()[i]).short_code@ == short_code
                && registry.countries().values()[i].code@ == code,
{
    let alts = short_codes(registry.countries());
    assert(alts.contains(Some(short_code)));
    let i = lemma_last_exists(alts, short_code);
    assert(registry.countries().values()[i].short_code@ == short_code);
    assert(own_codes(registry.countries())[i] == code);
}

/// In a registry whose records are stored under their own codes, a short
/// code of the index finds a record, and that record carries the short code.
pub proof fn lemma_short_code_finds_its_record(registry: CountryRegistry, short_code: Seq<char>)
    requires
        registry.wf(),
        registry.filed_under_own_codes(),
        registry.short_index().targets().contains_key(short_code),
    ensures
        registry.find_short(short_code) is Some,
        registry.find_short(short_code)->0.short_code@ == short_code,
        registry.find_short(short_code)->0.code@ == registry.short_index().targets()[short_code],
{
    let alts = short_codes(registry.countries());
    assert(alts.contains(Some(short_code)));
    let i = lemma_last_exists(alts, short_code);
    assert(own_codes(registry.countries())[i] == registry.countries().keys()[i]);
    lemma_assoc_at(registry.countries().keys(), registry.countries().values(), i);
}

/// The short code of every record is in the index. In a registry whose
/// records are stored under their own codes, the short code of a record
/// that shares it with no other record finds that record.
pub proof fn lemma_record_found_by_short_code(registry: CountryRegistry, i: int)
    requires
        registry.wf(),
        0 <= i < registry.countries().keys().len(),
    ensures
        registry.short_index().targets().contains_key(registry.countries().values()[i].short_code@),
        registry.filed_under_own_codes() && (forall|j: int|
            0 <= j < registry.countries().keys().len() && j != i
                ==> registry.countries().values()[j].short_code@
                != registry.countries().values()[i].short_code@) ==> registry.find_short(
            registry.countries().values()[i].short_code@,
        ) == Some(registry.countries().values()[i]),
{
    let alts = short_codes(registry.countries());
    let short_code = registry.countries().values()[i].short_code@;
    assert(alts[i] == Some(short_code));
    assert(alts.contains(Some(short_code)));
    if registry.filed_under_own_codes() && forall|j: int|
        0 <= j < registry.countries().keys().len() && j != i
            ==> registry.countries().values()[j].short_code@ != short_code {
        lemma_derived_at(
            registry.short_index().targets(),
            alts,
            own_codes(registry.countries()),
            i,
        );
        assert(own_codes(registry.countries())[i] == registry.countries().keys()[i]);
        lemma_assoc_at(registry.countries().keys(), registry.countries().values(), i);
    }
}

/// A code that no record is stored under finds nothing, and neither does a
/// short code that no record carries.
pub proof fn lemma_unknown_code_finds_nothing(registry: CountryRegistry, code: Seq<char>)
    requires
        registry.wf(),
    ensures
        !registry.countries().keys().contains(code) ==> registry.find_long(code) is None,
        (forall|i: int|
            0 <= i < registry.countries().keys().len()
                ==> registry.countries().values()[i].short_code@ != code) ==> registry.find_short(
            code,
        ) is None,
{
    let alts = short_codes(registry.countries());
    if alts.contains(Some(code)) {
        let i = choose|i: int| 0 <= i < alts.len() && alts[i] == Some(code);
        assert(registry.countries().values()[i].short_code@ == code);
    }
}

/// The registry holds as many records as the table has keys, and every key
/// finds the record at its position.
pub proof fn lemma_every_code_resolves(registry: CountryRegistry, i: int)
    requires
        registry.wf(),
        0 <= i < registry.countries().keys().len(),
    ensures
        registry.countries()@.dom().finite(),
        registry.countries()@.dom().len() == registry.countries().keys().len(),
        registry.find_long(registry.countries().keys()[i]) == Some(
            registry.countries().values()[i],
        ),
        registry.countries().keys()[i].len() == 3 ==> registry.find(registry.countries().keys()[i])
            == Some(registry.countries().values()[i]),
{
    lemma_assoc_len(registry.countries().keys(), registry.countries().values());
    lemma_assoc_at(registry.countries().keys(), registry.countries().values(), i);
}

/// A lookup by code can be repeated: what it returns depends on the registry
/// and the code alone, so two results for one code are equal.
pub proof fn lemma_find_is_repeatable(
    registry: CountryRegistry,
    code: Seq<char>,
    first: Option<CountryInfo>,
    second: Option<CountryInfo>,
)
    requires
        registry.wf(),
        match first {
            Some(record) => registry.find(code) == Some(record),
            None => registry.find(code) is None,
        },
        match second {
            Some(record) => registry.find(code) == Some(record),
            None => registry.find(code) is None,
        },
    ensures
        first == second,
{
}

} // verus!
