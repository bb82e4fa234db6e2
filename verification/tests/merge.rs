use bedmap::Action;
use bedmap::BedMapError;
use bedmap::MergeCursor;
use bedmap::NumParseError;
use bedmap::ReadOutcome;
use bedmap::select_lines;

fn strings(items: &[&str]) -> Vec<String> {
    items.iter().map(|s| s.to_string()).collect()
}

/// Drive a cursor over in-memory sources, where a `None` entry in `lines`
/// stands for an I/O failure of the lines source at that position.
fn drive(
    ranges: &[&str],
    lines: &[Option<&str>],
) -> (Vec<String>, Option<BedMapError>, MergeCursor) {
    let mut cursor = MergeCursor::new();
    let mut emitted: Vec<String> = Vec::new();
    let mut error: Option<BedMapError> = None;
    let mut ri: usize = 0;
    let mut li: usize = 0;
    loop {
        match cursor.advance() {
            Action::ReadRange => {
                let outcome = if ri < ranges.len() {
                    ri += 1;
                    ReadOutcome::Line(ranges[ri - 1].to_string())
                } else {
                    ReadOutcome::End
                };
                if let Err(e) = cursor.on_range(outcome) {
                    error = Some(e);
                    break;
                }
            }
            Action::ReadLine => {
                let outcome = if li < lines.len() {
                    li += 1;
                    match lines[li - 1] {
                        Some(text) => ReadOutcome::Line(text.to_string()),
                        None => ReadOutcome::Failed,
                    }
                } else {
                    ReadOutcome::End
                };
                if let Err(e) = cursor.on_line(outcome) {
                    error = Some(e);
                    break;
                }
            }
            Action::Emit(text) => emitted.push(text),
            Action::Finished => break,
        }
    }
    (emitted, error, cursor)
}

#[test]
fn test_bed_map() {
    let ranges = strings(&["2", "4-6", "8"]);
    let lines = strings(&["a", "b", "c", "d", "e", "f", "g", "h"]);
    let (selected, err) = select_lines(&ranges, &lines);
    assert!(err.is_none());
    assert_eq!(selected, strings(&["b", "d", "e", "f", "h"]));
}

#[test]
fn test_empty_sources() {
    let none: Vec<String> = Vec::new();
    let lines = strings(&["a", "b"]);
    let (selected, err) = select_lines(&none, &lines);
    assert!(selected.is_empty());
    assert!(err.is_none());
    let ranges = strings(&["1-2"]);
    let (selected, err) = select_lines(&ranges, &none);
    assert!(selected.is_empty());
    assert!(err.is_none());
}

#[test]
fn test_abutting_ranges_do_not_double_emit() {
    let ranges = strings(&["1-2", "3-4"]);
    let lines = strings(&["w", "x", "y", "z"]);
    let (selected, err) = select_lines(&ranges, &lines);
    assert!(err.is_none());
    assert_eq!(selected, strings(&["w", "x", "y", "z"]));
}

#[test]
fn test_single_range_single_line() {
    let ranges = strings(&["1"]);
    let lines = strings(&["only"]);
    let (selected, err) = select_lines(&ranges, &lines);
    assert!(err.is_none());
    assert_eq!(selected, strings(&["only"]));
}

#[test]
fn test_range_past_end_is_clean_exhaustion() {
    let lines = strings(&["a", "b", "c"]);
    let (selected, err) = select_lines(&strings(&["5"]), &lines);
    assert!(selected.is_empty());
    assert!(err.is_none());
    let (selected, err) = select_lines(&strings(&["4-9"]), &lines);
    assert!(selected.is_empty());
    assert!(err.is_none());
}

#[test]
fn test_bad_token_stops_after_prior_matches() {
    let ranges = strings(&["2", "x"]);
    let lines = strings(&["a", "b", "c", "d", "e"]);
    let (selected, err) = select_lines(&ranges, &lines);
    assert_eq!(selected, strings(&["b"]));
    assert!(matches!(
        err,
        Some(BedMapError::RangeParse(NumParseError::InvalidDigit))
    ));
}

#[test]
fn test_bad_format_token_fails_sequence() {
    let ranges = strings(&["3-1"]);
    let lines = strings(&["a", "b", "c"]);
    let (selected, err) = select_lines(&ranges, &lines);
    assert!(selected.is_empty());
    assert!(matches!(err, Some(BedMapError::RangeFormat)));
}

#[test]
fn test_exhausted_cursor_stays_finished() {
    let mut cursor = MergeCursor::new();
    assert!(matches!(cursor.advance(), Action::ReadRange));
    assert!(cursor.on_range(ReadOutcome::End).is_ok());
    assert!(cursor.finished);
    assert!(matches!(cursor.advance(), Action::Finished));
    assert!(matches!(cursor.advance(), Action::Finished));
    assert!(cursor.finished);
}

#[test]
fn test_range_read_failure_is_range_read() {
    let mut cursor = MergeCursor::new();
    assert!(matches!(cursor.advance(), Action::ReadRange));
    let fed = cursor.on_range(ReadOutcome::Failed);
    assert!(matches!(fed, Err(BedMapError::RangeRead)));
    assert!(cursor.finished);
    assert!(matches!(cursor.advance(), Action::Finished));
}

#[test]
fn test_io_error_on_third_line_fails_after_prior_matches() {
    let (emitted, error, mut cursor) = drive(&["1-5"], &[Some("a"), Some("b"), None]);
    assert_eq!(emitted, strings(&["a", "b"]));
    assert!(matches!(error, Some(BedMapError::TargetRead)));
    assert!(cursor.finished);
    assert!(matches!(cursor.advance(), Action::Finished));
}

#[test]
fn test_sorted_ranges_keep_line_order() {
    let ranges = strings(&["1", "3-4", "7-7"]);
    let lines = strings(&["l1", "l2", "l3", "l4", "l5", "l6", "l7", "l8"]);
    let (selected, err) = select_lines(&ranges, &lines);
    assert!(err.is_none());
    assert_eq!(selected, strings(&["l1", "l3", "l4", "l7"]));
}
