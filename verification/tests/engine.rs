use spreadsheet::cell::{CellValue, Coord};
use spreadsheet::error::SpreadsheetError;
use spreadsheet::sheet::Spreadsheet;

#[test]
fn number_round_trip() {
    let mut sheet = Spreadsheet::new();
    assert!(sheet.set_cell(0, 0, CellValue::Number(42)).is_ok());
    assert!(sheet.set_cell(5, 7, CellValue::Text("noise".to_string())).is_ok());
    assert!(sheet.set_cell(3, 3, CellValue::Number(-9)).is_ok());
    match sheet.get_cell_value(0, 0) {
        Some(CellValue::Number(n)) => assert_eq!(*n, 42),
        other => panic!("expected Number(42), got {:?}", other),
    }
}

#[test]
fn propagation_without_reissuing_formula() {
    let mut sheet = Spreadsheet::new();
    assert!(sheet.set_cell(0, 0, CellValue::Number(10)).is_ok()); // A1
    assert!(sheet.set_cell(0, 1, CellValue::Number(5)).is_ok()); // B1
    assert!(sheet.set_cell(1, 0, CellValue::Formula("A1 + B1".to_string())).is_ok()); // A2
    assert_eq!(sheet.evaluate_cell(1, 0).unwrap(), 15);
    assert!(sheet.set_cell(0, 0, CellValue::Number(20)).is_ok());
    assert_eq!(sheet.evaluate_cell(1, 0).unwrap(), 25);
    assert!(sheet.set_cell(0, 0, CellValue::Number(30)).is_ok());
    assert_eq!(sheet.evaluate_cell(1, 0).unwrap(), 35);
}

#[test]
fn cycle_rejected_and_nothing_committed() {
    let mut sheet = Spreadsheet::new();
    assert!(sheet.set_cell(0, 0, CellValue::Formula("B1+1".to_string())).is_ok()); // A1
    let r = sheet.set_cell(0, 1, CellValue::Formula("A1+1".to_string())); // B1
    assert!(matches!(r, Err(SpreadsheetError::CircularDependency)));
    // B1 still holds the empty placeholder, not the rejected formula.
    match sheet.get_cell_value(0, 1) {
        Some(CellValue::Empty) => {}
        other => panic!("expected Empty placeholder, got {:?}", other),
    }
    // The formula set first is still there.
    match sheet.get_cell_value(0, 0) {
        Some(CellValue::Formula(s)) => assert_eq!(s, "B1+1"),
        other => panic!("expected the first formula, got {:?}", other),
    }
}

#[test]
fn self_reference_rejected() {
    let mut sheet = Spreadsheet::new();
    let r = sheet.set_cell(0, 0, CellValue::Formula("A1+1".to_string()));
    assert!(matches!(r, Err(SpreadsheetError::CircularDependency)));
}

#[test]
fn idempotent_evaluation() {
    let mut sheet = Spreadsheet::new();
    assert!(sheet.set_cell(0, 0, CellValue::Number(6)).is_ok());
    assert!(sheet.set_cell(1, 0, CellValue::Formula("A1*7".to_string())).is_ok());
    let first = sheet.evaluate_cell(1, 0).unwrap();
    let second = sheet.evaluate_cell(1, 0).unwrap();
    assert_eq!(first, 42);
    assert_eq!(second, 42);
}

#[test]
fn error_isolation_on_text_operand() {
    let mut sheet = Spreadsheet::new();
    assert!(sheet.set_cell(0, 1, CellValue::Text("hello".to_string())).is_ok()); // B1
    assert!(sheet.set_cell(9, 9, CellValue::Number(77)).is_ok());
    assert!(sheet.set_cell(0, 0, CellValue::Formula("B1+1".to_string())).is_ok()); // A1
    match sheet.evaluate_cell(0, 0) {
        Err(SpreadsheetError::NonNumericOperand(c)) => {
            assert_eq!(c, Coord { row: 0, col: 1 });
        }
        other => panic!("expected NonNumericOperand, got {:?}", other),
    }
    // B1's text and the unrelated cell are intact.
    match sheet.get_cell_value(0, 1) {
        Some(CellValue::Text(s)) => assert_eq!(s, "hello"),
        other => panic!("expected the text back, got {:?}", other),
    }
    match sheet.get_cell_value(9, 9) {
        Some(CellValue::Number(n)) => assert_eq!(*n, 77),
        other => panic!("expected Number(77), got {:?}", other),
    }
}

#[test]
fn division_by_zero_guard() {
    let mut sheet = Spreadsheet::new();
    assert!(sheet.set_cell(0, 0, CellValue::Number(0)).is_ok()); // A1
    assert!(sheet.set_cell(0, 1, CellValue::Formula("10/A1".to_string())).is_ok()); // B1
    let r = sheet.evaluate_cell(0, 1);
    assert!(matches!(r, Err(SpreadsheetError::DivisionByZero)));
}

#[test]
fn sibling_recomputation_survives_one_failure() {
    let mut sheet = Spreadsheet::new();
    assert!(sheet.set_cell(0, 0, CellValue::Number(1)).is_ok()); // A1
    assert!(sheet.set_cell(0, 1, CellValue::Text("x".to_string())).is_ok()); // B1
    assert!(sheet.set_cell(1, 0, CellValue::Formula("A1+B1".to_string())).is_ok()); // A2: fails
    assert!(sheet.set_cell(1, 1, CellValue::Formula("A1+2".to_string())).is_ok()); // B2: fine
    assert!(sheet.set_cell(0, 0, CellValue::Number(40)).is_ok()); // triggers both
    assert_eq!(sheet.evaluate_cell(1, 1).unwrap(), 42);
    assert!(matches!(
        sheet.evaluate_cell(1, 0),
        Err(SpreadsheetError::NonNumericOperand(_))
    ));
}

#[test]
fn evaluate_missing_cell() {
    let mut sheet = Spreadsheet::new();
    assert!(matches!(
        sheet.evaluate_cell(4, 4),
        Err(SpreadsheetError::CellNotFound)
    ));
}

#[test]
fn evaluate_text_and_empty_cells() {
    let mut sheet = Spreadsheet::new();
    assert!(sheet.set_cell(0, 0, CellValue::Text("t".to_string())).is_ok());
    assert!(sheet.set_cell(1, 1, CellValue::Empty).is_ok());
    assert!(matches!(
        sheet.evaluate_cell(0, 0),
        Err(SpreadsheetError::NonNumericOperand(_))
    ));
    assert!(matches!(
        sheet.evaluate_cell(1, 1),
        Err(SpreadsheetError::NonNumericOperand(_))
    ));
}

#[test]
fn reference_to_empty_cell_fails() {
    let mut sheet = Spreadsheet::new();
    assert!(sheet.set_cell(0, 0, CellValue::Formula("B9+1".to_string())).is_ok());
    match sheet.evaluate_cell(0, 0) {
        Err(SpreadsheetError::NonNumericOperand(c)) => {
            assert_eq!(c, Coord { row: 8, col: 1 });
        }
        other => panic!("expected NonNumericOperand, got {:?}", other),
    }
}

#[test]
fn formula_text_survives_evaluation() {
    let mut sheet = Spreadsheet::new();
    assert!(sheet.set_cell(0, 0, CellValue::Number(2)).is_ok());
    assert!(sheet.set_cell(0, 1, CellValue::Formula("A1*3".to_string())).is_ok());
    assert_eq!(sheet.evaluate_cell(0, 1).unwrap(), 6);
    match sheet.get_cell_value(0, 1) {
        Some(CellValue::Formula(s)) => assert_eq!(s, "A1*3"),
        other => panic!("expected the formula text back, got {:?}", other),
    }
}

#[test]
fn replacing_a_formula_rewires() {
    let mut sheet = Spreadsheet::new();
    assert!(sheet.set_cell(0, 0, CellValue::Number(2)).is_ok()); // A1
    assert!(sheet.set_cell(0, 1, CellValue::Number(30)).is_ok()); // B1
    assert!(sheet.set_cell(1, 0, CellValue::Formula("A1+1".to_string())).is_ok()); // A2
    assert_eq!(sheet.evaluate_cell(1, 0).unwrap(), 3);
    assert!(sheet.set_cell(1, 0, CellValue::Formula("B1+1".to_string())).is_ok());
    assert_eq!(sheet.evaluate_cell(1, 0).unwrap(), 31);
    // A1 no longer feeds A2; changing it leaves A2's value alone.
    assert!(sheet.set_cell(0, 0, CellValue::Number(100)).is_ok());
    assert_eq!(sheet.evaluate_cell(1, 0).unwrap(), 31);
}

#[test]
fn deep_chain_recomputes() {
    let mut sheet = Spreadsheet::new();
    assert!(sheet.set_cell(0, 0, CellValue::Number(1)).is_ok()); // A1
    assert!(sheet.set_cell(1, 0, CellValue::Formula("A1+1".to_string())).is_ok()); // A2
    assert!(sheet.set_cell(2, 0, CellValue::Formula("A2+1".to_string())).is_ok()); // A3
    assert!(sheet.set_cell(3, 0, CellValue::Formula("A3+1".to_string())).is_ok()); // A4
    assert_eq!(sheet.evaluate_cell(3, 0).unwrap(), 4);
    assert!(sheet.set_cell(0, 0, CellValue::Number(10)).is_ok());
    assert_eq!(sheet.evaluate_cell(3, 0).unwrap(), 13);
}

#[test]
fn recursion_ceiling_is_an_error_not_a_crash() {
    let mut sheet = Spreadsheet::new();
    assert!(sheet.set_cell(0, 0, CellValue::Number(1)).is_ok());
    // A chain of 300 formula cells, each reading the row above.
    for row in 1..301usize {
        let formula = format!("A{}+1", row);
        assert!(sheet.set_cell(row, 0, CellValue::Formula(formula)).is_ok());
    }
    assert!(matches!(
        sheet.evaluate_cell(300, 0),
        Err(SpreadsheetError::RecursionLimitExceeded)
    ));
    // A chain within the ceiling still evaluates.
    assert_eq!(sheet.evaluate_cell(200, 0).unwrap(), 201);
}

#[test]
fn longer_cycle_rejected() {
    let mut sheet = Spreadsheet::new();
    assert!(sheet.set_cell(0, 0, CellValue::Formula("A2+1".to_string())).is_ok()); // A1 reads A2
    assert!(sheet.set_cell(1, 0, CellValue::Formula("A3+1".to_string())).is_ok()); // A2 reads A3
    let r = sheet.set_cell(2, 0, CellValue::Formula("A1+1".to_string())); // A3 reads A1: cycle
    assert!(matches!(r, Err(SpreadsheetError::CircularDependency)));
}
