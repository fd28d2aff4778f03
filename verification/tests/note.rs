use spektra::note::note_name;

#[test]
fn note_names() {
    assert_eq!(note_name(69), "A4");
    assert_eq!(note_name(60), "C4");
    assert_eq!(note_name(73), "C#5");
    assert_eq!(note_name(12), "C0");
    assert_eq!(note_name(127), "G9");
}

#[test]
fn octave_up_keeps_the_name() {
    for m in 0..100 {
        let a = note_name(m);
        let b = note_name(m + 12);
        let pa = a.trim_end_matches(|c: char| c.is_ascii_digit() || c == '-');
        let pb = b.trim_end_matches(|c: char| c.is_ascii_digit() || c == '-');
        assert_eq!(pa, pb);
    }
    assert_eq!(note_name(57), "A3");
}

#[test]
fn negative_note_numbers() {
    assert_eq!(note_name(-1), "B-1");
    assert_eq!(note_name(0), "C-1");
    assert_eq!(note_name(-13), "B-2");
    assert_eq!(note_name(-6), "F#-1");
}
