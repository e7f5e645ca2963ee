use learn_rust::{parse_config, run, search, search_case_insensitive, Config};

#[test]
fn case_sensitive() {
    let query = "duct";
    let contents = "\
Rust:
safe,fast,productive.
Pick three.
Duct tape.";
    assert_eq!(vec!["safe,fast,productive."], search(query, contents));
}

#[test]
fn case_insensitive() {
    let query = "rUsT";
    let contents = "\
Rust:
safe,fast,productive.
Pick thtee.
Trust me.";
    assert_eq!(
        vec!["Rust:", "Trust me."],
        search_case_insensitive(query, contents)
    );
}

#[test]
fn search_splits_lines_as_described() {
    // The empty query occurs in every line, so the result is the list of lines.
    assert_eq!(search("", ""), Vec::<&str>::new());
    assert_eq!(search("", "a"), vec!["a"]);
    assert_eq!(search("", "a\n"), vec!["a"]);
    assert_eq!(search("", "\n"), vec![""]);
    assert_eq!(search("", "a\n\nb"), vec!["a", "", "b"]);
    assert_eq!(search("", "a\r\nb\r"), vec!["a", "b\r"]);
    assert_eq!(search("", "a\r\r\nb"), vec!["a\r", "b"]);
    assert_eq!(search("", "\r\n\r\n"), vec!["", ""]);
    assert_eq!(search("", "x\ny\n\n"), vec!["x", "y", ""]);
}

#[test]
fn search_keeps_order_and_repeats() {
    let contents = "one\ntwo\nbone\none";
    assert_eq!(search("one", contents), vec!["one", "bone", "one"]);
    assert_eq!(search("two", contents), vec!["two"]);
    assert_eq!(search("three", contents), Vec::<&str>::new());
    assert_eq!(search("One", contents), Vec::<&str>::new());
    // A query cannot match across a line break.
    assert_eq!(search("e\nt", contents), Vec::<&str>::new());
}

#[test]
fn search_case_insensitive_folds_both_sides() {
    let contents = "ÄPFEL\näpfel\nApfel";
    assert_eq!(search_case_insensitive("Äp", contents), vec!["ÄPFEL", "äpfel"]);
    assert_eq!(search_case_insensitive("APFEL", contents), vec!["Apfel"]);
    // The lines come back as they were written.
    assert_eq!(search_case_insensitive("pf", "xPFx"), vec!["xPFx"]);
}

fn args(words: &[&str]) -> Vec<String> {
    words.iter().map(|w| w.to_string()).collect()
}

#[test]
fn config_takes_the_second_and_third_argument() {
    let a = args(&["prog", "needle", "hay.txt", "extra"]);
    let config = parse_config(&a);
    assert_eq!(config.query, "needle");
    assert_eq!(config.file_path, "hay.txt");
    assert!(config.ignore_case);
    let config = Config::new(&a);
    assert_eq!(config.query, "needle");
    assert_eq!(config.file_path, "hay.txt");
    assert!(config.ignore_case);
}

#[test]
fn config_build_wants_three_arguments() {
    assert_eq!(Config::build(&args(&[]), false).err(), Some("no enough arguments"));
    assert_eq!(
        Config::build(&args(&["prog", "needle"]), true).err(),
        Some("no enough arguments")
    );
    let built = Config::build(&args(&["prog", "needle", "hay.txt"]), false);
    let config = built.ok().unwrap();
    assert_eq!(config.query, "needle");
    assert_eq!(config.file_path, "hay.txt");
    assert!(!config.ignore_case);
    let config = Config::build(&args(&["prog", "needle", "hay.txt"]), true).ok().unwrap();
    assert!(config.ignore_case);
}

#[test]
fn run_searches_as_the_configuration_says() {
    let contents = "Rust:\nTrust me.\nrusty";
    let strict = Config {
        query: "rust".to_string(),
        file_path: String::new(),
        ignore_case: false,
    };
    assert_eq!(run(&strict, contents), vec!["Trust me.", "rusty"]);
    let loose = Config {
        query: "RUST".to_string(),
        file_path: String::new(),
        ignore_case: true,
    };
    assert_eq!(run(&loose, contents), vec!["Rust:", "Trust me.", "rusty"]);
}
