use crush::transforms::schema::{label_for, schema_for, Tool};

#[test]
fn native_ls_resolves_to_ls_schema() {
    assert!(schema_for("ls", "").is_some());
}

#[test]
fn bash_ls_command_resolves() {
    assert!(schema_for("bash", "ls -lah /usr/bin").is_some());
    assert!(schema_for("bash", "/bin/ls -la").is_some());
    assert!(schema_for("bash", "LC_ALL=C ls -l").is_some());
}

#[test]
fn bash_ps_command_resolves() {
    assert!(schema_for("bash", "ps aux").is_some());
}

#[test]
fn git_log_resolves_but_other_git_does_not() {
    assert!(schema_for("bash", "git log --pretty=format:%H|%an").is_some());
    assert!(schema_for("bash", "git status").is_none());
    assert!(schema_for("bash", "git diff").is_none());
}

#[test]
fn unknown_tools_fall_back() {
    assert!(schema_for("read", "").is_none());
    assert!(schema_for("bash", "cat foo.txt").is_none());
    assert!(schema_for("grep", "").is_none());
}

#[test]
fn labels_follow_the_schemas() {
    assert_eq!(label_for("ls", "anything"), "ls");
    assert_eq!(label_for("shell", "/usr/bin/ps aux"), "ps");
    assert_eq!(label_for("shell_send", "A=1 B=2 git log"), "git_log");
    assert_eq!(label_for("bash", "git status"), "columnar");
    assert_eq!(label_for("bash", ""), "columnar");
    assert_eq!(label_for("grep", "ls"), "columnar");
}

#[test]
fn schemas_name_their_columns() {
    let ls = Tool::Ls.schema();
    assert_eq!(
        ls.cols,
        ["perms", "links", "owner", "group", "size", "month", "day", "time"]
    );
    assert_eq!(ls.tail, "name");
    assert!(ls.skip_total && !ls.skip_header);
    let ps = Tool::Ps.schema();
    assert_eq!(
        ps.cols,
        ["USER", "PID", "%CPU", "%MEM", "VSZ", "RSS", "TTY", "STAT", "START", "TIME"]
    );
    assert_eq!(ps.tail, "COMMAND");
    assert!(!ps.skip_total && ps.skip_header);
    let log = Tool::GitLog.schema();
    assert_eq!(log.cols, ["sha", "author", "email", "date"]);
    assert_eq!(log.tail, "subject");
}
