use spreadsheet::cell::CellValue;
use spreadsheet::error::SpreadsheetError;
use spreadsheet::sheet::Spreadsheet;

fn eval_of(src: &str) -> Result<i64, SpreadsheetError> {
    let mut sheet = Spreadsheet::new();
    sheet.set_cell(99, 99, CellValue::Formula(src.to_string()))?;
    sheet.evaluate_cell(99, 99)
}

#[test]
fn literal_formula() {
    assert_eq!(eval_of("41 + 1").unwrap(), 42);
}

#[test]
fn precedence_of_products() {
    assert_eq!(eval_of("2+3*4").unwrap(), 14);
    assert_eq!(eval_of("2*3+4").unwrap(), 10);
    assert_eq!(eval_of("20-2*3").unwrap(), 14);
}

#[test]
fn parentheses_override_precedence() {
    assert_eq!(eval_of("(2+3)*4").unwrap(), 20);
    assert_eq!(eval_of("2*(3+4)").unwrap(), 14);
    assert_eq!(eval_of("((7))").unwrap(), 7);
}

#[test]
fn left_to_right_associativity() {
    assert_eq!(eval_of("10-3-2").unwrap(), 5);
    assert_eq!(eval_of("100/10/2").unwrap(), 5);
}

#[test]
fn integer_division_truncates() {
    assert_eq!(eval_of("7/2").unwrap(), 3);
}

#[test]
fn subtraction_goes_negative() {
    assert_eq!(eval_of("1-2").unwrap(), -1);
}

#[test]
fn unbalanced_parentheses_rejected() {
    assert!(matches!(
        eval_of("((1+2)"),
        Err(SpreadsheetError::InvalidFormula(_))
    ));
    assert!(matches!(
        eval_of("1+2)"),
        Err(SpreadsheetError::InvalidFormula(_))
    ));
}

#[test]
fn dangling_operators_rejected() {
    assert!(matches!(
        eval_of("1 + + 2"),
        Err(SpreadsheetError::InvalidFormula(_))
    ));
    assert!(matches!(
        eval_of("1+"),
        Err(SpreadsheetError::InvalidFormula(_))
    ));
    assert!(matches!(
        eval_of("-1"),
        Err(SpreadsheetError::InvalidFormula(_))
    ));
    assert!(matches!(
        eval_of(""),
        Err(SpreadsheetError::InvalidFormula(_))
    ));
}

#[test]
fn unknown_symbols_rejected() {
    assert!(matches!(
        eval_of("1 $ 2"),
        Err(SpreadsheetError::InvalidFormula(_))
    ));
    assert!(matches!(
        eval_of("a1+1"),
        Err(SpreadsheetError::InvalidFormula(_))
    ));
}

#[test]
fn malformed_cell_names_rejected() {
    // A row number of zero does not exist in A1-style references.
    assert!(matches!(
        eval_of("A0"),
        Err(SpreadsheetError::InvalidFormula(_))
    ));
    // Letters with no row number.
    assert!(matches!(
        eval_of("AB"),
        Err(SpreadsheetError::InvalidFormula(_))
    ));
}

#[test]
fn reference_names_map_to_coordinates() {
    let mut sheet = Spreadsheet::new();
    // B3 is row 2, column 1.
    assert!(sheet.set_cell(2, 1, CellValue::Number(7)).is_ok());
    assert!(sheet.set_cell(0, 0, CellValue::Formula("B3".to_string())).is_ok());
    assert_eq!(sheet.evaluate_cell(0, 0).unwrap(), 7);
    // AA1 is row 0, column 26.
    assert!(sheet.set_cell(0, 26, CellValue::Number(11)).is_ok());
    assert!(sheet.set_cell(5, 5, CellValue::Formula("AA1".to_string())).is_ok());
    assert_eq!(sheet.evaluate_cell(5, 5).unwrap(), 11);
}

#[test]
fn overflow_is_reported_not_wrapped() {
    assert_eq!(eval_of("9223372036854775807").unwrap(), i64::MAX);
    assert!(matches!(
        eval_of("9223372036854775807 + 1"),
        Err(SpreadsheetError::NumericOverflow)
    ));
    assert!(matches!(
        eval_of("9223372036854775808"),
        Err(SpreadsheetError::InvalidFormula(_))
    ));
}

#[test]
fn whitespace_is_ignored() {
    assert_eq!(eval_of("  1   +\t2 ").unwrap(), 3);
}

#[test]
fn error_descriptions() {
    assert_eq!(
        SpreadsheetError::CircularDependency.describe(),
        "Circular dependency detected"
    );
    assert_eq!(SpreadsheetError::CellNotFound.describe(), "Cell not found");
    assert_eq!(
        SpreadsheetError::InvalidFormula("A0".to_string()).describe(),
        "Invalid formula: A0"
    );
    assert_eq!(SpreadsheetError::DivisionByZero.describe(), "Division by zero");
}

fn invalid_detail(src: &str) -> String {
    match eval_of(src) {
        Err(SpreadsheetError::InvalidFormula(d)) => d,
        other => panic!("expected InvalidFormula, got {:?}", other),
    }
}

#[test]
fn invalid_formula_carries_offending_substring() {
    // Token-level faults carry the offending lexeme.
    assert_eq!(invalid_detail("1 $ 2"), "$");
    assert_eq!(invalid_detail("9223372036854775808"), "9223372036854775808");
    assert_eq!(invalid_detail("A0"), "A0");
    assert_eq!(invalid_detail("AB"), "AB");
    assert_eq!(invalid_detail("1 + a1"), "a");
    // Grammar-level faults carry the whole formula text.
    assert_eq!(invalid_detail("((1+2)"), "((1+2)");
    assert_eq!(invalid_detail("1+"), "1+");
    assert_eq!(invalid_detail("1 + + 2"), "1 + + 2");
}
