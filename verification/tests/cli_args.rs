use dns_server::config::cli_args::CliArgs;

fn args(words: &[&str]) -> Vec<String> {
    words.iter().map(|w| w.to_string()).collect()
}

#[test]
fn resolver_is_read_from_its_flag() {
    let cli = CliArgs::init(&args(&["server", "--resolver", "8.8.8.8:53"]));
    assert_eq!(cli.resolver(), Some("8.8.8.8:53".to_string()));
    assert_eq!(cli.get("--resolver"), Some("8.8.8.8:53".to_string()));
    assert_eq!(cli.get("--port"), None);
}

#[test]
fn no_resolver_without_the_flag() {
    let cli = CliArgs::init(&args(&["server"]));
    assert_eq!(cli.resolver(), None);
    let cli = CliArgs::init(&args(&["server", "--port", "2053"]));
    assert_eq!(cli.resolver(), None);
    assert_eq!(cli.get("--port"), Some("2053".to_string()));
}

#[test]
fn flags_are_read_in_pairs_behind_the_program_name() {
    let cli = CliArgs::init(&args(&["--resolver", "--port", "--resolver", "x", "y"]));
    assert_eq!(cli.get("--port"), Some("--resolver".to_string()));
    assert_eq!(cli.get("x"), Some("y".to_string()));
    assert_eq!(cli.resolver(), None);
}

#[test]
fn last_value_of_a_repeated_flag_counts() {
    let cli = CliArgs::init(&args(&[
        "server",
        "--resolver",
        "1.1.1.1:53",
        "--port",
        "2053",
        "--resolver",
        "9.9.9.9:53",
    ]));
    assert_eq!(cli.resolver(), Some("9.9.9.9:53".to_string()));
    assert_eq!(cli.get("--port"), Some("2053".to_string()));
}
