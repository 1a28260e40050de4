use barnes_hut::report::log_error;

#[test]
fn report_names_the_call_and_each_cause() {
    let sources =
        vec!["surface lost".to_string(), "device removed".to_string(), "driver fault".to_string()];
    let lines = log_error("pixels.render", "surface lost", &sources);
    assert_eq!(
        lines,
        vec![
            "pixels.render() failed: surface lost".to_string(),
            "Caused by: device removed".to_string(),
            "Caused by: driver fault".to_string(),
        ]
    );
}

#[test]
fn report_of_an_error_without_cause_is_one_line() {
    let lines = log_error("pixels.resize_surface", "bad size", &vec!["bad size".to_string()]);
    assert_eq!(lines, vec!["pixels.resize_surface() failed: bad size".to_string()]);
    let bare = log_error("f", "", &Vec::new());
    assert_eq!(bare, vec!["f() failed: ".to_string()]);
}

#[test]
fn report_skips_only_the_first_of_the_chain() {
    let sources = vec!["a".to_string(), "a".to_string(), "".to_string()];
    let lines = log_error("", "top", &sources);
    assert_eq!(
        lines,
        vec!["() failed: top".to_string(), "Caused by: a".to_string(), "Caused by: ".to_string()]
    );
}
