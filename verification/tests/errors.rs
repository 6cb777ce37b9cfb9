use bomberman::errors::MazeError;

#[test]
fn each_error_has_its_message() {
    assert_eq!(
        MazeError::FileNotFound(String::from("no such file")).to_string(),
        "File not found: no such file"
    );
    assert_eq!(
        MazeError::InvalidFormat(String::from("Not allowed character found")).to_string(),
        "Invalid format: Not allowed character found"
    );
    assert_eq!(MazeError::NoBomb.to_string(), "No Bomb found in the given coordinates");
    assert_eq!(MazeError::OutOfBounds.to_string(), "Coordinates out of bounds");
    assert_eq!(MazeError::Other(String::from("why")).to_string(), "An error occurred: why");
}

#[test]
fn an_empty_cause_leaves_the_heading() {
    assert_eq!(MazeError::FileNotFound(String::new()).to_string(), "File not found: ");
    assert_eq!(MazeError::InvalidFormat(String::new()).to_string(), "Invalid format: ");
    assert_eq!(MazeError::Other(String::new()).to_string(), "An error occurred: ");
}
