use catering_invoice::display::virtual_size_fields;

fn fields(s: &str) -> Option<(String, String)> {
    virtual_size_fields(s)
}

#[test]
fn virtual_size_fields_splits_width_and_height() {
    assert_eq!(fields("1920,1080"), Some(("1920".to_string(), "1080".to_string())));
    assert_eq!(fields(" 1920,1080\n"), Some(("1920".to_string(), "1080".to_string())));
    assert_eq!(fields("1920 , 1080"), Some(("1920".to_string(), "1080".to_string())));
}

#[test]
fn virtual_size_fields_needs_exactly_two_fields() {
    assert_eq!(fields("1920"), None);
    assert_eq!(fields(""), None);
    assert_eq!(fields("1,2,3"), None);
    assert_eq!(fields(",,"), None);
}

#[test]
fn virtual_size_fields_keeps_empty_fields() {
    assert_eq!(fields(","), Some((String::new(), String::new())));
    assert_eq!(fields(" ,5"), Some((String::new(), "5".to_string())));
}

#[test]
fn virtual_size_fields_matches_std_split() {
    for s in ["1920,1080", "  a , b ", "x,", ",y", "1,2,3", "", "\t3840,2160\n", "a b,c d"] {
        let parts: Vec<&str> = s.trim().split(",").collect();
        let expected = if parts.len() == 2 {
            Some((parts[0].trim().to_string(), parts[1].trim().to_string()))
        } else {
            None
        };
        assert_eq!(fields(s), expected, "input {s:?}");
    }
}
