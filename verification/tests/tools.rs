use mdkb::tools::{cli_link_plan, install_failure, link_command, parse_version_output, privileged_script};

#[test]
fn parse_version_extracts_bare_version() {
    assert_eq!(parse_version_output("mkb 0.3.0").as_deref(), Some("0.3.0"));
    assert_eq!(parse_version_output("mkb 0.3.0\n").as_deref(), Some("0.3.0"));
    assert_eq!(parse_version_output("   ").as_deref(), None);
    assert_eq!(parse_version_output("").as_deref(), None);
}

#[test]
fn parse_version_single_token_and_tabs() {
    assert_eq!(parse_version_output("0.4.1").as_deref(), Some("0.4.1"));
    assert_eq!(parse_version_output("mkb\t1.2.3 \r\n").as_deref(), Some("1.2.3"));
}

#[test]
fn plan_covers_missing_stale_correct_and_absent() {
    // mkb: bundled, link missing; mkb-mcp: bundled, link stale; mkbd: not bundled;
    // mkb-web: bundled and already linked correctly.
    let observed = vec![
        (true, None),
        (true, Some("/tmp/t/somewhere-else".to_string())),
        (false, None),
        (true, Some("/tmp/t/bin/mkb-web".to_string())),
    ];
    let plan = cli_link_plan("/tmp/t/bin", "/tmp/t/links", &observed);
    assert_eq!(plan.len(), 2, "expected mkb + mkb-mcp, got {plan:?}");
    assert!(plan
        .iter()
        .any(|(s, l)| s == "/tmp/t/bin/mkb" && l == "/tmp/t/links/mkb"));
    assert!(plan
        .iter()
        .any(|(s, l)| s == "/tmp/t/bin/mkb-mcp" && l == "/tmp/t/links/mkb-mcp"));
    assert!(
        !plan.iter().any(|(_, l)| l == "/tmp/t/links/mkbd"),
        "mkbd has no bundled binary; it must not be planned"
    );

    // Now make the mkb link correct and re-plan: only the still-stale mkb-mcp remains.
    let observed = vec![
        (true, Some("/tmp/t/bin/mkb".to_string())),
        (true, Some("/tmp/t/somewhere-else".to_string())),
        (false, None),
        (true, Some("/tmp/t/bin/mkb-web".to_string())),
    ];
    let plan = cli_link_plan("/tmp/t/bin", "/tmp/t/links", &observed);
    assert_eq!(plan.len(), 1);
    assert_eq!(plan[0].1, "/tmp/t/links/mkb-mcp");
}

#[test]
fn link_command_creates_the_dir_then_each_link() {
    let work = vec![
        ("/App/bin/mkb".to_string(), "/usr/local/bin/mkb".to_string()),
        ("/App/bin/mkbd".to_string(), "/usr/local/bin/mkbd".to_string()),
    ];
    assert_eq!(
        link_command("/usr/local/bin", &work),
        "mkdir -p /usr/local/bin && ln -sf '/App/bin/mkb' '/usr/local/bin/mkb' && ln -sf '/App/bin/mkbd' '/usr/local/bin/mkbd'"
    );
    assert_eq!(link_command("/x", &Vec::new()), "mkdir -p /x");
}

#[test]
fn privileged_script_escapes_backslashes_and_quotes() {
    assert_eq!(
        privileged_script("echo \"a\\b\""),
        "do shell script \"echo \\\"a\\\\b\\\"\" with administrator privileges"
    );
}

#[test]
fn install_failure_tells_a_dismissed_prompt_apart() {
    assert_eq!(install_failure(true, "execution error: User canceled. (-128)", Some(1)), "Cancelled.");
    assert_eq!(install_failure(true, "Operation CANCELLED", Some(1)), "Cancelled.");
    assert_eq!(install_failure(false, "", Some(126)), "Cancelled.");
    assert_eq!(
        install_failure(false, "  permission denied\n", Some(1)),
        "Could not install the CLI tools: permission denied"
    );
    assert_eq!(
        install_failure(true, "disk full", None),
        "Could not install the CLI tools: disk full"
    );
}
