use velocidb::shell::{classify_command, ShellCommand};

#[test]
fn shell_meta_commands_in_any_case() {
    assert_eq!(classify_command(""), ShellCommand::Continue);
    for line in ["exit", "QUIT", ".Exit", ".quit"] {
        assert_eq!(classify_command(line), ShellCommand::Exit);
    }
    assert_eq!(classify_command("Help"), ShellCommand::Help);
    assert_eq!(classify_command(".help"), ShellCommand::Help);
    assert_eq!(classify_command(".TABLES"), ShellCommand::Tables);
}

#[test]
fn shell_queries_and_statements() {
    assert_eq!(classify_command("select * from users"), ShellCommand::Query);
    assert_eq!(classify_command("SELECT 1"), ShellCommand::Query);
    assert_eq!(classify_command("INSERT INTO t VALUES (1)"), ShellCommand::Execute);
    assert_eq!(classify_command(" SELECT * FROM t"), ShellCommand::Execute);
    assert_eq!(classify_command("help me"), ShellCommand::Execute);
    assert_eq!(classify_command("SEL"), ShellCommand::Execute);
}
