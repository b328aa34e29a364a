use minigrep::Config;
use minigrep::ConfigError;

#[test]
fn create_config_works() {
    let args = vec![
        String::from("system"),
        String::from("apple"),
        String::from("poem.txt"),
    ];
    let sample_config = Config::new(&args, false).unwrap();
    assert_eq!("apple", sample_config.query);
}

#[test]
fn no_arguments_beyond_program_name_is_a_missing_query() {
    let args = vec![String::from("system")];
    assert_eq!(Some(ConfigError::MissingQuery), Config::new(&args, false).err());
    assert_eq!(Some(ConfigError::MissingQuery), Config::new(&args, true).err());
    let no_args: Vec<String> = Vec::new();
    assert_eq!(Some(ConfigError::MissingQuery), Config::new(&no_args, false).err());
}

#[test]
fn two_arguments_are_a_missing_filename() {
    let args = vec![String::from("system"), String::from("apple")];
    assert_eq!(Some(ConfigError::MissingFilename), Config::new(&args, false).err());
    assert_eq!(Some(ConfigError::MissingFilename), Config::new(&args, true).err());
}

#[test]
fn fourth_argument_i_forces_case_insensitive() {
    let args = vec![
        String::from("system"),
        String::from("apple"),
        String::from("poem.txt"),
        String::from("i"),
    ];
    assert!(!Config::new(&args, false).unwrap().case_sensitive);
    assert!(!Config::new(&args, true).unwrap().case_sensitive);
}

#[test]
fn other_fourth_argument_defers_to_environment() {
    let args = vec![
        String::from("system"),
        String::from("apple"),
        String::from("poem.txt"),
        String::from("x"),
    ];
    assert!(Config::new(&args, false).unwrap().case_sensitive);
    assert!(!Config::new(&args, true).unwrap().case_sensitive);
}

#[test]
fn no_fourth_argument_defers_to_environment() {
    let args = vec![
        String::from("system"),
        String::from("apple"),
        String::from("poem.txt"),
    ];
    assert!(Config::new(&args, false).unwrap().case_sensitive);
    assert!(!Config::new(&args, true).unwrap().case_sensitive);
}

#[test]
fn resolved_fields_copy_the_arguments() {
    let args = vec![
        String::from("system"),
        String::from("needle"),
        String::from("hay.txt"),
    ];
    let config = Config::new(&args, false).unwrap();
    assert_eq!("needle", config.query);
    assert_eq!("hay.txt", config.filename);
    assert!(config.case_sensitive);
}

#[test]
fn matching_lines_follow_the_resolved_mode() {
    let contents = "Rust:\nsafe, fast, productive.\nTrust me.";
    let args = vec![
        String::from("system"),
        String::from("rUsT"),
        String::from("poem.txt"),
    ];
    let sensitive = Config::new(&args, false).unwrap();
    assert_eq!(Vec::<&str>::new(), sensitive.matching_lines(contents));
    let insensitive = Config::new(&args, true).unwrap();
    assert_eq!(vec!["Rust:", "Trust me."], insensitive.matching_lines(contents));
}
