//! Helpers for a chemical inventory: normalisation of molecular formulas into
//! Hill-ordered empirical formulas, validation of CAS and EC registry numbers,
//! cleaning of free-text input, and the records exchanged with the PubChem
//! compound database.
pub mod casnumber;
pub mod cenumber;
pub mod formula;
pub mod formula_laws;
pub mod pubchem;
pub mod string;
pub mod text;
