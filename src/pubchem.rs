//! Records exchanged with the PubChem compound database, as plain data.
use vstd::prelude::*;

verus! {

/// The compound names that an autocomplete query returned.
#[derive(Debug, Default)]
pub struct AutocompleteTerm {
    pub compound: Vec<String>,
}

/// The answer to an autocomplete query.
#[derive(Debug, Default)]
pub struct Autocomplete {
    pub total: usize,
    pub dictionary_terms: Option<AutocompleteTerm>,
}

/// One compound of a property query: its identifier and formula.
#[derive(Debug, Default)]
pub struct Property {
    pub cid: usize,
    pub molecular_formula: Option<String>,
}

/// The compounds of a property query.
#[derive(Debug, Default)]
pub struct Properties {
    pub properties: Vec<Property>,
}

/// The answer to a property query.
#[derive(Debug, Default)]
pub struct PropertyTable {
    pub property_table: Properties,
}

/// A simplified product: its name, its hazard pictograms, and a picture of
/// its structure (a base64-encoded PNG).
#[derive(Debug, Default)]
pub struct Product {
    pub name: String,
    pub symbols: Option<Vec<String>>,
    pub twodpicture: Option<String>,
}

/// A simplified PubChem compound record.
#[derive(Debug, Default)]
pub struct PubchemProduct {
    pub name: Option<String>,
    pub iupac_name: Option<String>,
    pub inchi: Option<String>,
    pub inchi_key: Option<String>,
    pub canonical_smiles: Option<String>,
    pub molecular_formula: Option<String>,
    pub cas: Option<String>,
    pub ec: Option<String>,
    pub molecular_weight: Option<String>,
    pub molecular_weight_unit: Option<String>,
    pub boiling_point: Option<String>,
    pub synonyms: Option<Vec<String>>,
    pub symbols: Option<Vec<String>>,
    pub signal: Option<Vec<String>>,
    pub hs: Option<Vec<String>>,
    pub ps: Option<Vec<String>>,
    pub twodpicture: Option<String>,
}

} // verus!
