use dupdb::nav::{get_updated_file_contents, header_lines_from_template, Config, MISSING_PATH_TO_UPDATE};

fn args(list: &[&str]) -> Vec<String> {
    list.iter().map(|s| String::from(*s)).collect()
}

#[test]
fn empty_config_is_empty() {
    let args: Vec<String> = Vec::new();
    let built = Config::build(args);
    assert!(built.is_err());
}

#[test]
fn fails_to_build_config_on_no_args() {
    let built = Config::build(args(&["programname"]));
    assert!(built.is_err());
}

#[test]
fn fails_to_build_config_on_one_arg() {
    let built = Config::build(args(&["programname", "templatefile"]));
    assert!(built.is_err());
}

#[test]
fn successfully_builds_with_two_args() {
    let built = Config::build(args(&["programname", "templatefile", "path"]));
    assert!(built.is_ok());
}

#[test]
fn built_config_holds_the_two_arguments() {
    let config = Config::build(args(&["prog", "t.html", "site", "extra"])).ok().unwrap();
    assert_eq!(config.template_file, "t.html");
    assert_eq!(config.path_to_update, "site");
    match Config::build(args(&["prog", "t.html"])) {
        Err(message) => assert_eq!(message, MISSING_PATH_TO_UPDATE),
        Ok(_) => panic!("a missing path must be refused"),
    }
}

#[test]
fn reads_lines_after_headers() {
    let contents = "<header>\n<nav>\n<li>hi</li>\n</nav>\n</header>";
    let lines = header_lines_from_template(contents);
    assert_eq!(lines, vec!["<nav>", "<li>hi</li>", "</nav>"]);
}

#[test]
fn header_lines_skip_what_comes_before_and_after() {
    let contents = "<html>\r\n  <header>\r\n  <a>x</a>\r\n  </header>\r\n<p>after</p>\r\n";
    let lines = header_lines_from_template(contents);
    assert_eq!(lines, vec!["  <a>x</a>"]);
    assert!(header_lines_from_template("no header here\n").is_empty());
}

#[test]
fn splices_correctly() {
    let template = vec!["<nav>", "<li>hi</li>", "</nav>"];
    let to_replace_in = "Wont be touched at all\n<header>\n<nav>\n<li>bye</li>\n</nav>\n</header>\nWont be touched";
    let new_contents = get_updated_file_contents(&template, to_replace_in.to_string());
    assert_eq!(
        "Wont be touched at all\n<header>\n<nav>\n<li>hi</li>\n</nav>\n</header>\nWont be touched\n",
        new_contents
    );
}

#[test]
fn an_unclosed_header_drops_the_rest_of_the_page() {
    let template = vec!["<b>"];
    let page = "a\n<header>\nold\nmore".to_string();
    assert_eq!(get_updated_file_contents(&template, page), "a\n<header>\n<b>\n\n");
}

#[test]
fn a_page_without_a_header_only_gains_a_final_line_feed() {
    let template = vec!["<b>"];
    assert_eq!(get_updated_file_contents(&template, "x\r\ny".to_string()), "x\ny\n");
    assert_eq!(get_updated_file_contents(&template, String::new()), "");
}
