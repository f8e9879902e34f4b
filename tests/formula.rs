use chimitheque_utils::formula::{sort_empirical_formula, SortEmpiricalFormulaError};

fn sorted(formula: &str) -> Result<String, SortEmpiricalFormulaError> {
    sort_empirical_formula(formula)
}

/// The entries of a list written as one `|`-separated line.
fn concat_list(joined: &str) -> Vec<&str> {
    joined.split('|').collect()
}

#[test]
fn test_sort_empirical_formula() {
    let empirical_formulas = concat_list(
        "As2O3|BaCl2|C10H12O|C10H12O2|C10H13N5O4|C10H14N4O2|C10H14O|C10H15NO|C10H16O|C10H18|\
         C10H18O|C10H7Br|C10H8O|C11H12Cl2N2O5|C11H12O3|C11H17O3P|C12H11N|C12H12N2|C12H15N3O6|\
         C12H18O|C13H10N2|C13H10N2O|C13H11Cl|C13H17HgNO6|C14H12O2|C14H18N4O3|C16H19N3O4S|C16H34|\
         C17H12O6|C18H34O2|C19H10Br4O5S|C20H12O5|C20H16N2O4|C20H22O3|C20H28O2|C21H12O7|\
         C21H20BrN3|C21H28O5|C22H23N3O9|C24H40O4|C25H54ClN|C27H44N10O6|C29H37IN2O2|C2H2Cl2O2|\
         C2H2ClN|C2H2O4|C2H3Cl3O2|C2H3LiO2|C2H3N|C2H3NaO2|C2H4I2|C2H4N4|C2H4O2|C2H4O2S|C2H5Br|\
         C2H5BrO|C2H5ClO|C2H5N5O3|C2H5NO|C2H7AsO2|C2H7NO2|C2H8N2|C2HCl3O2|C34H24N6Na4O14S4|\
         C35H58O9|C39H54N10O14S|C3H2N2|C3H4O3|C3H5NO|C3H6BrCl|C3H6O2|C3H6O3|C3H7Br|C3H7ClO2|\
         C4F6O3|C4H10O|C4H10O2|C4H11NO|C4H6O2|C4H6O4|C4H6O5|C4H7NO4|C4H8O2|C5H10O2|C5H11Br|\
         C5H4O2|C5H6O2|C62H86N12O16|C62H87N13O16|C6H10O2|C6H10O5|C6H11Br|C6H11NO4|C6H12|\
         C6H12Cl2O2|C6H12N2|C6H12O2|C6H12O7|C6H14N2|C6H14N2O2|C6H3N3O7|C6H5I|C6H5NO2|C6H8O3|\
         C6H8O7|C76H52O46|C7H12O4|C7H16|C7H16O|C7H5N|C7H6O|C7H6O2|C7H6O3|C7H7Br|C7H7Cl|C7H7NO|\
         C7H7NO2|C7H8N2|C7H8O|C7H8O2|C7H9N|C7H9NO|C8H10N4O2|C8H10O|C8H10O3|C8H12N2O3|C8H12N4O5|\
         C8H14O6|C8H16O2|C8H17Br|C8H18O|C8H18O3|C8H8N6O6|C8H8O|C8H8O2|C8H9Br|C8H9NO|C8H9NO2|\
         C9H10O|C9H10O2|C9H13N|C9H23NO3Si|C9H8O|CBrCl3|CCaO3|CCl4|CH2Cl2|CH2O|CH2O2|CH3I|CH4O|\
         CH4O3S|CH5NO3|CH8N2O3|CHCl3|CK2O3|CNa2O3|CdCl2|Cr2K2O7|H2MoO4|H2O4S|H3BO3|H3N|H3O4P|\
         H4ClN|HBF4|HClO3S|HClO4|N3Na"
    );

    for formula in empirical_formulas {
        assert_eq!(sorted(formula).unwrap(), formula.to_string());
    }

    let linear_formulas = concat_list(
        "(C2H5)2NC6H5|(C2H5O)2P(O)CH2CO2C2H5|(C2H5O)2P(O)Cl|(C2H5O)2SO2|(C2H5O)3PO|(C6H5)2CH2|\
         (C6H5)2CHCl|(C6H5)2O|(C6H5CH2)2CO|(CF3CO)2O|(CH3(CH2)3O)3PO|(CH3)2C(OH)CH2COCH3|\
         (CH3)2C6H3NH2|(CH3)2C=CHCH2CH2C(CH3)=CHCH2OH|(CH3)2C=CHCH2CH2CH(CH3)CH2CH2OH|\
         (CH3)2C=CHCH2CH2CH(CH3)CH2CHO|(CH3)2C=CHCH2OH|(CH3)2C=NOH|(CH3)2CHCH(NH2)CO2H|\
         (CH3)2CHCH2CH2OH|(CH3)2CHCH2COOH|(CH3)2NC(=NH)N(CH3)2|(CH3)2NCH2CH2CN|\
         (CH3)2NCH2CH2N(CH3)2|(CH3)2SO|(CH3)3C6H2COCH3|(CH3)3N(Br3)C6H5|(CH3)3SiCHN2|\
         (CH3)3SiNHSi(CH3)3|(CH3)3SiO[(CH3)HSiO]nSi(CH3)3|(CH3CH2)2O|(CH3CH2CH2CH2)4N(HSO4)|\
         (CH3CH2CH2CH2)4N(PF6)|(CH3CH=CHCO)2O|(CH3CO2)2Zn|(CH3O)C6H4OH|(CH3OCH2CH2)2O|\
         (HOCH2CH2)2O|(HOCH2CH2)3N|(O2N)2C6H3F|Br(CH2)10COOH|Br(CH2)4Br|Br2CHCHBr2|BrC6H4CO2H|\
         BrC6H4NH2|BrC6H4OCH3|BrCCl3|BrCH2C6H4CO2H|BrCH2CH(Br)CH2OH|BrCH2CH2Br|BrCH2CH2OH|\
         BrCH2COOH|C10H13ClO3|C10H15BrO4S · NH3|C10H16O4S|C10H7CHO|C15H10O7 · xH2O|\
         C21H14N3NaO3S3|C2H5C6H4Br|C2H5CH(NH2)CH2OH|C2H5OCH2CH2OH|C2H5OCO(CH2)4COOC2H5|\
         C2H5OCOCH=CHCOOC2H5|C2H5OCOCOOC2H5|C5H5N·ClCrO3H|C6H10(NH2)2|C6H11N=C=NC6H11|C6H11OH|\
         C6H4(OCH3)2|C6H5CH(CH3)Br|C6H5CH(OH)CH(CH3)NH2|C6H5CH(OH)CH(NH2)CH2OH|C6H5CH2Br|\
         C6H5CH2CH(NH2)CO2H|C6H5CH2CH(NH2)COOC2H5 · HCl|C6H5CH2CH(NH2)COOCH3 · HC|\
         C6H5CH2CH(NH2)COOCH3 · HCl|C6H5CH2CH(NH2)COOH|C6H5CH2COCH3|C6H5CH2COCl|C6H5CH2Cl|\
         C6H5CH2N(CH3)2|C6H5CH2NH2|C6H5CH2P(O)(OC2H5)2|C6H5CH3|C6H5CH=CH2|C6H5CH=CHBr|\
         C6H5CH=CHCHO|C6H5CH=CHCOOC2H5|C6H5CN|C6H5CO(CH2)3CH3|C6H5CO2C6H5|C6H5CO2CH2CH2CH3|\
         C6H5COC6H4CO2H|C6H5CONHOH|C6H5COOC2H5|C6H5COOCH3|C6H5COOH|C6H5N(CH3)2|C6H5NHCH3|\
         C6H5NHNH2|C6H5OCH2CH=CH2|C6H5Si(CH3)3|C8 H17 N3 . H Cl|CCl2=CCl2|CF3COCH2COCF3|CF3COOH|\
         CH2OCH2O|CH3(CH2)10OH|CH3(CH2)11N(CH3)3Br|CH3(CH2)12CH3|CH3(CH2)14CH3|\
         CH3(CH2)3C6H4N=CHC6H4OCH3|CH3(CH2)3CH(CO2H)2|CH3(CH2)3CH3|CH3(CH2)3OCH2CH2OCH2CH2OH|\
         CH3(CH2)4CH(OH)CH=CH2|CH3(CH2)4CH(OH)C≡CH|CH3(CH2)5CH3|CH3(CH2)5CH=CHCO2CH3|\
         CH3(CH2)5COCH3|CH3(CH2)5C≡CCO2CH3|CH3(CH2)7Br|CH3(CH2)8COOH|CH3C6H10OH|CH3C6H4Br|\
         CH3C6H4NH2|CH3C6H4NO2|CH3C6H4OCH3|CH3C6H4OH|CH3C6H4SO3CH3|CH3C6H9(=O)|\
         CH3CH(OH)CH(OH)CH3|CH3CH(OH)CH2OH|CH3CH2CH2Br|CH3CH=CHC6H4OCH3|CH3CH=CHCH=CHCO2C2H5|\
         CH3CO2CH(C6H5)CO2H|CH3CO2H|CH3COCH(CH2C6H5)CO2C2H5|CH3COCH2CH2COCH3|CH3COCH2COOC2H5|\
         CH3COCH3|CH3CONH2|CH3CONHC6H4CO2H|CH3CONHC6H4OH|CH3CONHC6H5|CH3COO(CH2)3CH3|CH3COOC2H5|\
         CH3COOC6H5|CH3COOCH2C6H5|CH3N(CH2CH2OH)2|CH3N(NO)C(=NH)NHNO2|CH3O(CH2CH2O)3CH3|\
         CH3OC6H3(CH=CHCH3)OH|CH3OC6H4CO2H|CH3OC6H4NH2|CH3OCH2CH2OCH3|CH3OCOCH=CHCOOCH3|CH3OH|\
         CHCl2CHCl2|Cl(CH2)3Br|Cl(CH2)3COCH3|Cl3CCH(OH)2|Cl3CCH3|ClC6H4CO2H|ClCH2CH(OH)CH2OH|\
         ClCH2CH2OCH2CH2OCH2CH2Cl|ClCH2CH2OH|ClCH2CO2C2H5|ClCH2COOH|H2N(CH2)4CH(NH2)CO2H|\
         H2NC10H6C10H6NH2|H2NC10H6SO3H|H2NC6H4CO2H|H2NC6H4COCH3|HCHO|HCONH2|HCONHCH3|\
         HN(CH2CH2OH)2|HO(CH2)3OH|HO(CH2)4OH|HO(CH2)5OH|HO(CH2CH2O)2CH2CH2OH|HO2CCH2CH(NH2)CO2H|\
         HOC(COOH)(CH2COOH)2|HOC10H6C10H6OH|HOC6H4CO2CH3|HOC6H4COCH3|HOCH2CH(OH)CH2OH|\
         HOOC(CH2)4COOH|HOOCCH2CH(NH2)COOH|ICH2CH2I|Li[CH(CH3)CH2CH3]3BH|NC(CH2)4CN|\
         NH2(CH2)10CO2H|NH2(CH2)4NH2|NH2C(CH2OH)3|NH2CH2CH2(NHCH2CH2)2NH2|NH2CH2CH2SO3H|\
         NH2CH2COOCH3 · HCl|NH2CH2COOH|NH2SO3H|Ni(C5H7O2)2|S(CH2CH2OH)2|[(C6H5)2PC10H6-]2|\
         [-CH(OH)CO2C2H5]2|[-CH(OH)CO2CH3]2|[-CH2OCH2CH2N(CH2CO2H)2]2|[C6H5CO2CH(CO2H)]2|\
         [CH2=C(CH3)CH2PdCl]2|[CH3(CH2)5]4N(HSO4)|[CH3C6H4CO2CH(CO2H)-]2|[CH3CH2CH(C6H5)CO]2O"
    );

    for formula in linear_formulas {
        assert!(sorted(formula).is_ok(), "{formula}");
    }

    // A number with neither a symbol nor a closing bracket right before it
    // (a leading locant, a hydrate prefix after a separator) is refused.
    let numbers_without_context = concat_list(
        "2-(CH3CO2)C6H4CO2H|2-(H2N)C6H4CO2H|2-(HO)C6H4CHO|2-(HO)C6H4CO2CH3|202-853-6|\
         4-(HO)C6H3-3-(OCH3)CHO|C6H4-1,2-(CO2C2H5)2|C6H4-1,2-(CO2CH3)2|\
         C6H5CH[CH(NHCH3)CH3]OH · 1/2H2O|GdCl3.6H2O"
    );

    for formula in numbers_without_context {
        assert_eq!(
            sorted(formula),
            Err(SortEmpiricalFormulaError::NumberAfterUnknowAtom),
            "{formula}"
        );
    }
}

#[test]
fn canonical_formula_is_kept() {
    for formula in ["C5H11Br", "CH2Cl2", "C6H12O7", "BaCl2", "C", "H2O", "CH4", "HBF4", ""] {
        assert_eq!(sorted(formula).unwrap(), formula.to_string());
    }
}

#[test]
fn unmatched_closing_bracket() {
    assert_eq!(sorted(")H2O"), Err(SortEmpiricalFormulaError::UnbalancedParenthesis));
    assert_eq!(sorted("(H2O))"), Err(SortEmpiricalFormulaError::UnbalancedParenthesis));
    assert_eq!(sorted("H2]O["), Err(SortEmpiricalFormulaError::UnbalancedParenthesis));
    assert_eq!(sorted("((H)"), Ok("H".to_string()));
}

#[test]
fn unknown_atoms() {
    assert_eq!(sorted("Xx2"), Err(SortEmpiricalFormulaError::UnknowAtom("Xx".to_string())));
    assert_eq!(sorted("Q"), Err(SortEmpiricalFormulaError::UnknowAtom("Q".to_string())));
    assert_eq!(sorted("H2Jo"), Err(SortEmpiricalFormulaError::UnknowAtom("Jo".to_string())));
    assert_eq!(sorted("CH3E"), Err(SortEmpiricalFormulaError::UnknowAtom("E".to_string())));
}

#[test]
fn lowercase_after_single_letter_symbol() {
    // "Cx" is no symbol: the scan falls back to "C" and skips the "x".
    assert_eq!(sorted("Cx"), Ok("C".to_string()));
    assert_eq!(sorted("C15H10O7 · xH2O"), Ok("C15H12O8".to_string()));
}

#[test]
fn group_multipliers() {
    assert_eq!(sorted("Cl(CaC2(NaCl)3)2"), Ok("C4Ca2Cl7Na6".to_string()));
    assert_eq!(sorted("Cl(CaC2(NaCl)3)2.Na=P"), Ok("C4Ca2Cl7Na7P".to_string()));
    assert_eq!(sorted("CH3(CH2)5CH3"), Ok("C7H16".to_string()));
    assert_eq!(sorted("[(C6H5)2PC10H6-]2"), Ok("C44H32P2".to_string()));
    assert_eq!(sorted("(H)0"), Ok("H0".to_string()));
    assert_eq!(sorted("(H)12"), Ok("H12".to_string()));
}

#[test]
fn multiplier_reaches_every_deeper_occurrence() {
    // The earlier group (H) was read at depth 1 as well, so it is doubled too.
    assert_eq!(sorted("(H)(O)2"), Ok("H2O2".to_string()));
}

#[test]
fn hill_order() {
    assert_eq!(sorted("O2H4C1"), Ok("CH4O2".to_string()));
    assert_eq!(sorted("ClNaBr"), Ok("BrClNa".to_string()));
    assert_eq!(sorted("OHH"), Ok("H2O".to_string()));
    assert_eq!(sorted("C10"), Ok("C10".to_string()));
    assert_eq!(sorted("H99C99"), Ok("C99H99".to_string()));
}

#[test]
fn structural_formulas() {
    assert_eq!(sorted("CH3CH2CH2Br"), Ok("C3H7Br".to_string()));
    assert_eq!(sorted("C6H5CH=CHCHO"), Ok("C9H8O".to_string()));
    assert_eq!(sorted("NH2CH2COOCH3 · HCl"), Ok("C3H8ClNO2".to_string()));
}

#[test]
fn numbers_without_context() {
    assert_eq!(sorted("2H"), Err(SortEmpiricalFormulaError::NumberAfterUnknowAtom));
    assert_eq!(sorted("(2H)"), Err(SortEmpiricalFormulaError::NumberAfterUnknowAtom));
    assert_eq!(sorted("C123"), Err(SortEmpiricalFormulaError::NumberAfterUnknowAtom));
    assert_eq!(sorted("H2O.5"), Err(SortEmpiricalFormulaError::NumberAfterUnknowAtom));
}

#[test]
fn count_overflow() {
    let nine = "(((((((((H)99)99)99)99)99)99)99)99)99";
    assert_eq!(sorted(nine), Ok("H913517247483640899".to_string()));
    let ten = "((((((((((H)99)99)99)99)99)99)99)99)99)99";
    assert_eq!(sorted(ten), Err(SortEmpiricalFormulaError::CountOverflow));
}

#[test]
fn error_messages() {
    assert_eq!(SortEmpiricalFormulaError::UnbalancedParenthesis.message(), "unbalanced parenthesis");
    assert_eq!(
        SortEmpiricalFormulaError::UnknowAtom("Xx".to_string()).message(),
        "unknown atom Xx"
    );
    assert_eq!(
        SortEmpiricalFormulaError::NumberAfterUnknowAtom.message(),
        "found a number after no known atom"
    );
    assert_eq!(
        SortEmpiricalFormulaError::UnexpectedNoneAtomCount("C".to_string()).message(),
        "unexpected empty atom_count_map value for key C"
    );
    assert_eq!(SortEmpiricalFormulaError::CanNotParseNumber.message(), "can not parse number");
    assert_eq!(SortEmpiricalFormulaError::CountOverflow.message(), "atom count too large");
    assert_eq!(sorted("Q").unwrap_err().message(), "unknown atom Q");
}

#[test]
fn normalising_twice_changes_nothing() {
    for formula in ["CH3(CH2)5CH3", "Cl(CaC2(NaCl)3)2", "(C2H5O)2P(O)CH2CO2C2H5", "OHH", "Cx"] {
        let once = sorted(formula).unwrap();
        assert_eq!(sorted(&once), Ok(once.clone()), "{formula}");
    }
    // A total of 100 or more is written with three digits, which reads back as
    // a two-digit count followed by a number without context.
    let big = sorted("(CH2)50C").unwrap();
    assert_eq!(big, "C51H100");
    assert_eq!(sorted(&big), Err(SortEmpiricalFormulaError::NumberAfterUnknowAtom));
}
