use interpretthis::source::line_of;

#[test]
fn line_of_never_panics_on_offset_inside_multibyte_char() {
    // The em-dash occupies three bytes; offsets inside it still name a line.
    let src = "a\n— dashed comment\nb = 1";
    assert_eq!(line_of(src, 0), 1);
    assert_eq!(line_of(src, 2), 2);
    assert_eq!(line_of(src, 3), 2);
    assert_eq!(line_of(src, 4), 2);
    assert_eq!(line_of(src, src.len()), 3);
    assert_eq!(line_of(src, src.len() + 100), 1);
}

#[test]
fn line_of_counts_newlines_before_offset() {
    let src = "x = 1\ny = 2\n\nz = 3";
    assert_eq!(line_of(src, 5), 1);
    assert_eq!(line_of(src, 6), 2);
    assert_eq!(line_of(src, 12), 3);
    assert_eq!(line_of(src, 13), 4);
    assert_eq!(line_of("", 0), 1);
}
