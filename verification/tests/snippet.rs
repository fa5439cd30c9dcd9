use wrasm::studio::snippet::Snippet;

const FRAME: &str = "invoke F, {{field:path}}, {{select:mode|READ,WRITE}}, {{field:flags}}";

#[test]
fn defaults_render_and_fields_locate() {
    let s = Snippet::from_frame(FRAME);
    assert_eq!(s.text, "invoke F, <path>, READ, <flags>");
    assert_eq!(s.fields.len(), 3);
    // Each recorded range slices back to its current value.
    assert_eq!(&s.text[s.fields[0].start..s.fields[0].end], "<path>");
    assert_eq!(&s.text[s.fields[1].start..s.fields[1].end], "READ");
    assert_eq!(&s.text[s.fields[2].start..s.fields[2].end], "<flags>");
    assert!(!s.fields[0].is_dropdown());
    assert_eq!(s.fields[1].options, vec!["READ".to_string(), "WRITE".to_string()]);
}

#[test]
fn fill_a_field_shifts_later_ranges() {
    let mut s = Snippet::from_frame(FRAME);
    s.set_active_value("rcx"); // path: 6 chars -> 3, shifts the rest left
    assert_eq!(s.text, "invoke F, rcx, READ, <flags>");
    // The later tabstops still slice to the right values after the shift.
    assert_eq!(&s.text[s.fields[1].start..s.fields[1].end], "READ");
    assert_eq!(&s.text[s.fields[2].start..s.fields[2].end], "<flags>");
}

#[test]
fn choosing_a_dropdown_grows_ranges_correctly() {
    let mut s = Snippet::from_frame(FRAME);
    s.next();
    assert_eq!(s.active_value(), "READ");
    s.set_active_value("WRITE"); // 4 -> 5 chars, shifts the rest right
    assert_eq!(s.text, "invoke F, <path>, WRITE, <flags>");
    assert_eq!(&s.text[s.fields[2].start..s.fields[2].end], "<flags>");
}

#[test]
fn tab_navigation_bounds() {
    let mut s = Snippet::from_frame(FRAME);
    assert_eq!(s.active, 0);
    assert!(s.next() && s.next());
    assert_eq!(s.active, 2);
    assert!(!s.next(), "stops at last");
    assert!(s.prev() && s.prev());
    assert_eq!(s.active, 0);
    assert!(!s.prev(), "stops at first");
}

#[test]
fn completeness_tracks_unfilled_text_fields() {
    let mut s = Snippet::from_frame(FRAME);
    assert!(!s.is_complete(), "two text fields still placeholders");
    s.set_active_value("rcx"); // fill path
    assert!(!s.is_complete(), "flags still a placeholder");
    s.active = 2;
    s.set_active_value("0"); // fill flags
    assert!(s.is_complete(), "all text fields filled; dropdown counts as filled");
}

#[test]
fn filled_snippet_is_a_clean_invoke() {
    let mut s = Snippet::from_frame(FRAME);
    s.set_active_value("rcx");
    s.active = 2;
    s.set_active_value("0");
    let line = s.finish();
    assert_eq!(line, "invoke F, rcx, READ, 0");
    assert!(!line.contains('<') && !line.contains("{{"));
}

#[test]
fn frame_without_holes_is_inert() {
    let s = Snippet::from_frame("invoke GetLastError");
    assert_eq!(s.text, "invoke GetLastError");
    assert!(s.fields.is_empty());
    assert!(s.is_complete());
    assert!(s.active_field().is_none());
}
