//! Numeric codes for the regions of the world, as used by the United
//! Nations Statistics Division, and their names.
//!
//! A region is known by its numeric code alone. The dataset is a JSON
//! object that maps the decimal notation of each code to the region's name.

use crate::decimal::{decimal_u16, parse_u16};
use crate::index::{
    derived, first_occurrences, lemma_derived_push, lemma_first_occurrences_distinct,
    lemma_first_occurrences_push, lemma_last_exists,
};
use crate::json::{decode_string_map, entry_texts, json_string_map};
use crate::store::{assoc, entry_keys, lemma_assoc_at, lemma_assoc_len, NumericStore};
use vstd::prelude::*;

verus! {

/// A representation of registered region data.
#[derive(Debug)]
pub struct RegionInfo {
    /// The unique numeric identifier for this region.
    pub code: u16,
    /// The name of this region.
    pub name: String,
}

/// Why a dataset could not be loaded.
#[derive(Debug)]
pub enum LoadError {
    /// The document is not a JSON object of strings.
    Malformed,
    /// A key of the document is not the decimal notation of a code.
    InvalidCode,
}

/// The code of each entry of a dataset, where its key is the notation of one.
pub open spec fn region_codes(entries: Seq<(String, String)>) -> Seq<Option<u16>> {
    entries.map_values(|e: (String, String)| decimal_u16(e.0@))
}

/// The record of each entry of a dataset.
pub open spec fn region_infos(entries: Seq<(String, String)>) -> Seq<RegionInfo> {
    entries.map_values(|e: (String, String)| RegionInfo { code: decimal_u16(e.0@)->0, name: e.1 })
}

/// The registry of regions: the table of records by numeric code.
pub struct RegionRegistry {
    regions: NumericStore<RegionInfo>,
}

impl RegionRegistry {
    /// The table of records, keyed by numeric code.
    pub closed spec fn regions(&self) -> NumericStore<RegionInfo> {
        self.regions
    }

    /// Validity: the table is valid, and every record is stored under the
    /// code that it carries itself.
    pub open spec fn wf(&self) -> bool {
        &&& self.regions().wf()
        &&& forall|i: int|
            0 <= i < self.regions().keys().len() ==> (#[trigger] self.regions().values()[i]).code
                == self.regions().keys()[i]
    }

    /// The record stored under `code`.
    pub open spec fn find(&self, code: u16) -> Option<RegionInfo> {
        if self.regions()@.contains_key(code) {
            Some(self.regions()@[code])
        } else {
            None
        }
    }
}

/// Builds the registry from the entries of a dataset, in order: each key is
/// read as a decimal number, and the name is stored under that number. Where
/// two keys stand for the same number, the code stands where it first
/// occurred, and the later entry gives the name. One key that is not a number
/// fails the whole dataset.
pub fn regions_from_entries(entries: Vec<(String, String)>) -> (r: Result<
    RegionRegistry,
    LoadError,
>)
    ensures
        match r {
            Ok(registry) => {
                &&& registry.wf()
                &&& forall|i: int|
                    0 <= i < entries@.len() ==> (#[trigger] region_codes(entries@)[i]) is Some
                &&& registry.regions().keys() == first_occurrences(region_codes(entries@))
                &&& derived(registry.regions()@, region_codes(entries@), region_infos(entries@))
                &&& region_codes(entries@).no_duplicates() ==> registry.regions().keys().len()
                    == entries@.len()
            },
            Err(e) => {
                &&& e is InvalidCode
                &&& exists|i: int|
                    0 <= i < entries@.len() && (#[trigger] region_codes(entries@)[i]) is None
            },
        },
{
    let mut regions: NumericStore<RegionInfo> = NumericStore::new();
    let ghost all = entries@;
    for entry in it: entries
        invariant
            it.seq() == all,
            regions.wf(),
            forall|i: int|
                0 <= i < regions.keys().len() ==> (#[trigger] regions.values()[i]).code
                    == regions.keys()[i],
            forall|i: int| 0 <= i < it.index() ==> (#[trigger] region_codes(all)[i]) is Some,
            regions.keys() == first_occurrences(region_codes(all).take(it.index() as int)),
            derived(
                regions@,
                region_codes(all).take(it.index() as int),
                region_infos(all).take(it.index() as int),
            ),
    {
        let ghost i = it.index() as int;
        let (key, name) = entry;
        match parse_u16(key.as_str()) {
            None => {
                assert(region_codes(all)[i] is None);
                return Err(LoadError::InvalidCode);
            },
            Some(code) => {
                let info = RegionInfo { code, name };
                proof {
                    assert(region_codes(all)[i] == Some(code));
                    assert(region_infos(all)[i] == info);
                    lemma_first_occurrences_push(region_codes(all).take(i), Some(code));
                    lemma_derived_push(
                        regions@,
                        region_codes(all).take(i),
                        region_infos(all).take(i),
                        Some(code),
                        info,
                    );
                    assert(region_codes(all).take(i + 1) =~= region_codes(all).take(i).push(
                        Some(code),
                    ));
                }
                let ghost before = regions;
                regions.insert(code, info);
                proof {
                    if before.keys().contains(code) {
                        let p = before.keys().index_of(code);
                        assert forall|j: int| 0 <= j < regions.keys().len() implies (
                        #[trigger] regions.values()[j]).code == regions.keys()[j] by {
                            if j != p {
                                assert(regions.values()[j] == before.values()[j]);
                            }
                        }
                    } else {
                        assert forall|j: int| 0 <= j < regions.keys().len() implies (
                        #[trigger] regions.values()[j]).code == regions.keys()[j] by {
                            if j < before.keys().len() {
                                assert(regions.values()[j] == before.values()[j]);
                            }
                        }
                    }
                }
            },
        }
    }
    proof {
        assert(region_codes(all).take(all.len() as int) =~= region_codes(all));
        if region_codes(all).no_duplicates() {
            let codes = region_codes(all).map_values(|code: Option<u16>| code->0);
            assert(region_codes(all) =~= codes.map_values(|code: u16| Some(code)));
            assert(codes.no_duplicates()) by {
                assert forall|i: int, j: int|
                    0 <= i < codes.len() && 0 <= j < codes.len() && i != j implies codes[i]
                    != codes[j] by {
                    assert(region_codes(all)[i] != region_codes(all)[j]);
                }
            }
            lemma_first_occurrences_distinct(region_codes(all), codes);
        }
    }
    Ok(RegionRegistry { regions })
}

/// The records of `regions` are those that the document `document` gives:
/// every key of the document is the notation of a code that is in the
/// registry, and every record of the registry carries its own code and the
/// name that the document gives under a notation of that code.
pub open spec fn holds_document(
    regions: Map<u16, RegionInfo>,
    document: Map<Seq<char>, Seq<char>>,
) -> bool {
    &&& forall|key: Seq<char>| #[trigger]
        document.contains_key(key) ==> decimal_u16(key) is Some && regions.contains_key(
            decimal_u16(key)->0,
        )
    &&& forall|code: u16| #[trigger]
        regions.contains_key(code) ==> regions[code].code == code && exists|key: Seq<char>|
            document.contains_key(key) && #[trigger] decimal_u16(key) == Some(code)
                && regions[code].name@ == document[key]
}

/// No two keys of the document are notations of the same code.
pub open spec fn codes_distinct(document: Map<Seq<char>, Seq<char>>) -> bool {
    forall|k1: Seq<char>, k2: Seq<char>|
        document.contains_key(k1) && document.contains_key(k2) && k1 != k2
            ==> #[trigger] decimal_u16(k1) != #[trigger] decimal_u16(k2)
}

/// Loads the registry from its dataset, a JSON object that maps the decimal
/// notation of each code to the name of the region.
///
/// The decoding is that of `serde_json`, whose answer the contract refers to
/// as `json_string_map`. A document that it does not decode gives
/// `Malformed`; one with a key that is not a number gives `InvalidCode`.
pub fn load_regions_from_json(raw_data: &[u8]) -> (r: Result<RegionRegistry, LoadError>)
    ensures
        match json_string_map(raw_data@) {
            None => r matches Err(e) && e is Malformed,
            Some(document) => match r {
                Ok(registry) => {
                    &&& registry.wf()
                    &&& holds_document(registry.regions()@, document)
                    &&& codes_distinct(document) ==> registry.regions().keys().len()
                        == document.dom().len()
                },
                Err(e) => {
                    &&& e is InvalidCode
                    &&& exists|key: Seq<char>|
                        document.contains_key(key) && #[trigger] decimal_u16(key) is None
                },
            },
        },
{
    match decode_string_map(raw_data) {
        Err(_) => Err(LoadError::Malformed),
        Ok(entries) => {
            let ghost all = entries@;
            let ghost keys = entry_keys(all);
            let ghost document = assoc(keys, entry_texts(all));
            let r = regions_from_entries(entries);
            let ghost outcome = r;
            proof {
                assert forall|i: int| 0 <= i < all.len() implies document.contains_key(
                    #[trigger] keys[i],
                ) && document[keys[i]] == all[i].1@ by {
                    lemma_assoc_at(keys, entry_texts(all), i);
                }
                match outcome {
                    Ok(registry) => {
                        let regions = registry.regions()@;
                        assert forall|key: Seq<char>| #[trigger]
                            document.contains_key(key) implies decimal_u16(key) is Some
                            && regions.contains_key(decimal_u16(key)->0) by {
                            let i = keys.index_of(key);
                            assert(region_codes(all)[i] == decimal_u16(key));
                            assert(region_codes(all).contains(decimal_u16(key)));
                        }
                        assert forall|code: u16| #[trigger]
                            regions.contains_key(code) implies regions[code].code == code
                            && exists|key: Seq<char>|
                            document.contains_key(key) && #[trigger] decimal_u16(key) == Some(code)
                                && regions[code].name@ == document[key] by {
                            let i = lemma_last_exists(region_codes(all), code);
                            assert(regions[code] == region_infos(all)[i]);
                            assert(document.contains_key(keys[i]));
                            assert(decimal_u16(keys[i]) == Some(code));
                        }
                        if codes_distinct(document) {
                            assert(region_codes(all).no_duplicates()) by {
                                let codes = region_codes(all);
                                assert forall|i: int, j: int|
                                    0 <= i < all.len() && 0 <= j < all.len() && i
                                        != j implies codes[i] != codes[j] by {
                                    assert(document.contains_key(keys[i]));
                                    assert(document.contains_key(keys[j]));
                                }
                            }
                            lemma_assoc_len(keys, entry_texts(all));
                        }
                    },
                    Err(_) => {
                        let i = choose|i: int|
                            0 <= i < all.len() && (#[trigger] region_codes(all)[i]) is None;
                        assert(document.contains_key(keys[i]));
                        assert(decimal_u16(keys[i]) is None);
                    },
                }
            }
            r
        },
    }
}

/// Looks up a region by its numeric code, returning `None` if the code does
/// not exist in the registry.
pub fn lookup<'a>(registry: &'a RegionRegistry, code: u16) -> (r: Option<&'a RegionInfo>)
    requires
        registry.wf(),
    ensures
        match r {
            Some(region) => registry.find(code) == Some(*region) && region.code == code,
            None => registry.find(code) is None,
        },
{
    let r = registry.regions.get(code);
    proof {
        if registry.regions()@.contains_key(code) {
            let i = registry.regions().keys().index_of(code);
            lemma_assoc_at(registry.regions().keys(), registry.regions().values(), i);
        }
    }
    r
}

/// Returns all the registered numeric region codes, in the order of the
/// table.
pub fn all_codes(registry: &RegionRegistry) -> (codes: Vec<u16>)
    requires
        registry.wf(),
    ensures
        codes@ == registry.regions().keys(),
{
    let mut codes: Vec<u16> = Vec::new();
    let n: usize = registry.regions.len();
    let mut i: usize = 0;
    while i < n
        invariant
            registry.wf(),
            n == registry.regions().keys().len(),
            i <= n,
            codes@ == registry.regions().keys().take(i as int),
        decreases n - i,
    {
        codes.push(registry.regions.key_at(i));
        i += 1;
    }
    codes
}

/// The registry holds as many records as the table has codes, no code
/// twice, and every code finds the record at its position, which carries
/// that code.
pub proof fn lemma_every_code_resolves(registry: RegionRegistry, i: int)
    requires
        registry.wf(),
        0 <= i < registry.regions().keys().len(),
    ensures
        registry.regions()@.dom().finite(),
        registry.regions()@.dom().len() == registry.regions().keys().len(),
        registry.find(registry.regions().keys()[i]) == Some(registry.regions().values()[i]),
        registry.regions().values()[i].code == registry.regions().keys()[i],
{
    lemma_assoc_len(registry.regions().keys(), registry.regions().values());
    lemma_assoc_at(registry.regions().keys(), registry.regions().values(), i);
}

/// A code that is not in the table finds nothing.
pub proof fn lemma_unknown_code_finds_nothing(registry: RegionRegistry, code: u16)
    requires
        registry.wf(),
        !registry.regions().keys().contains(code),
    ensures
        registry.find(code) is None,
{
}

/// A lookup by code can be repeated: what it returns depends on the registry
/// and the code alone, so two results for one code are equal.
pub proof fn lemma_find_is_repeatable(
    registry: RegionRegistry,
    code: u16,
    first: Option<RegionInfo>,
    second: Option<RegionInfo>,
)
    requires
        registry.wf(),
        match first {
            Some(record) => registry.find(code) == Some(record),
            None => registry.find(code) is None,
        },
        match second {
            Some(record) => registry.find(code) == Some(record),
            None => registry.find(code) is None,
        },
    ensures
        first == second,
{
}

} // verus!
