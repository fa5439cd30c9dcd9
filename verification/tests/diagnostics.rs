use wrasm::studio::diagnostics::{underline, underlines};
use wrasm::studio::lang::{Diag, Severity};

#[test]
fn underline_hugs_the_offending_token() {
    // "mov eax, OPEN_EXISTNG" — the constant starts at byte 9 (col 10).
    let line = "mov eax, OPEN_EXISTNG";
    assert_eq!(line.as_bytes()[9], b'O');
    let (s, e) = underline(line, 10);
    assert_eq!(&line[s..e], "OPEN_EXISTNG");
}

#[test]
fn column_inside_a_token_still_selects_the_whole_token() {
    let line = "mov eax, OPEN_EXISTNG";
    let (s, e) = underline(line, 14); // somewhere in the middle of the constant
    assert_eq!(&line[s..e], "OPEN_EXISTNG");
}

#[test]
fn col_zero_underlines_the_whole_line() {
    let line = "some whole-file note";
    assert_eq!(underline(line, 0), (0, line.len()));
}

#[test]
fn col_past_end_clamps() {
    let line = "ret";
    let (s, e) = underline(line, 99);
    assert!(s <= line.len() && e <= line.len() && s <= e);
}

#[test]
fn underlines_maps_rows_and_messages() {
    let lines = vec![".globl main", "main:", "  mov eax, OPEN_EXISTNG"];
    let diags = vec![Diag {
        line: 3,
        col: 12, // 1-based column of OPEN_EXISTNG on row 2 ("  mov eax, " = 11 chars)
        message: "unknown constant 'OPEN_EXISTNG'".to_string(),
        severity: Severity::Error,
    }];
    let u = underlines(&lines, &diags);
    assert_eq!(u.len(), 1);
    assert_eq!(u[0].row, 2);
    assert_eq!(&lines[u[0].row][u[0].start..u[0].end], "OPEN_EXISTNG");
    assert!(u[0].message.contains("unknown constant"));
}

#[test]
fn whole_file_diag_maps_to_first_row() {
    let lines = vec!["a", "b"];
    let diags = vec![Diag { line: 0, col: 0, message: "file-level".to_string(), severity: Severity::Info }];
    let u = underlines(&lines, &diags);
    assert_eq!(u[0].row, 0);
    assert_eq!((u[0].start, u[0].end), (0, 1));
}


#[test]
fn a_line_that_is_not_there_marks_the_whole_first_row() {
    let at = |line: usize| Diag { line, col: 2, message: "m".to_string(), severity: Severity::Error };
    for line in [0, 3, 9] {
        let us = underlines(&["a", "bcd"], &[at(line)]);
        assert_eq!((us[0].row, us[0].start, us[0].end, us[0].message.as_str()), (0, 0, 1, "m"));
    }
    let us = underlines(&["a", "b cd"], &[at(2)]);
    assert_eq!(us[0].row, 1);
    let us = underlines(&[], &[at(1)]);
    assert_eq!((us[0].row, us[0].start, us[0].end), (0, 0, 0));
}

#[test]
fn an_underline_of_a_blank_place_stays_within_the_line() {
    let line = "mov  eax, 1";
    let (s, e) = underline(line, 5);
    assert!(s <= e && e <= line.len());
}
