use music_turtles::composition::Pitch;

#[test]
fn test_transpose_1() {
    let mut pitch = Pitch(4, 0); // C4
    pitch.transpose(2);
    assert_eq!(pitch, Pitch(4, 2)); // D4
}

#[test]
fn test_transpose_2() {
    let mut pitch = Pitch(4, 0); // C4
    pitch.transpose(-1);
    assert_eq!(pitch, Pitch(3, 11)); // B3
}

#[test]
fn test_transpose_3() {
    let mut pitch = Pitch(4, 2); // D4
    pitch.transpose(-7);
    assert_eq!(pitch, Pitch(3, 7)); // G3
}

#[test]
fn test_transpose_4() {
    let mut pitch = Pitch(4, 0); // C4
    pitch.transpose(12);
    assert_eq!(pitch, Pitch(5, 0)); // C5
}
