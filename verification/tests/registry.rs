use autocommit::entry::CronLine;
use autocommit::error::{Error, ParseError};
use autocommit::registry::{create, delete, list, marker, Registry};

fn s(x: &str) -> String {
    x.to_string()
}

const LINE_A: &str = "*/5 * * * * /bin/autocommit run /a >> /a/.autocommit_log 2>&1";
const LINE_B: &str = "*/9 * * * * /bin/autocommit run /b >> /b/.autocommit_log 2>&1";

fn keys(registry: &Registry) -> Vec<String> {
    registry.entries().iter().filter_map(|e| e.key().cloned()).collect()
}

fn count(registry: &Registry, path: &str) -> usize {
    registry.entries().iter().filter(|e| e.key().map(|k| k.as_str()) == Some(path)).count()
}

#[test]
fn marker_is_the_name_of_the_tool() {
    assert_eq!(marker(), "autocommit");
}

#[test]
fn load_keeps_the_lines_with_the_marker() {
    let table = format!("OPENAI_API_KEY=abc\n\n0 3 * * * backup /home\n{}\n# note\n{}\n", LINE_A, LINE_B);
    let registry = Registry::load(&table).unwrap();
    assert_eq!(
        registry.entries(),
        &vec![CronLine::parse(LINE_A).unwrap(), CronLine::parse(LINE_B).unwrap()]
    );
}

#[test]
fn load_of_an_empty_table_is_empty() {
    assert_eq!(Registry::load("").unwrap(), Registry::new());
    assert_eq!(Registry::load("0 3 * * * backup /home\n").unwrap().entries().len(), 0);
}

#[test]
fn load_fails_on_a_malformed_line_of_the_tool() {
    assert_eq!(Registry::load("# autocommit\n"), Err(ParseError::MissingCadence));
    assert_eq!(Registry::load("* * * * * autocommit\n"), Err(ParseError::MissingArguments));
    let table = format!("{}\n1 2 3 4 autocommit\n{}\n", LINE_A, LINE_B);
    assert_eq!(Registry::load(&table), Err(ParseError::MissingCommand));
}

#[test]
fn load_reports_the_first_malformed_line() {
    let table = "* * * * * autocommit\nautocommit\n";
    assert_eq!(Registry::load(table), Err(ParseError::MissingArguments));
}

#[test]
fn load_skips_malformed_lines_of_others() {
    let table = format!("broken\n{}\n", LINE_A);
    assert_eq!(Registry::load(&table).unwrap().entries().len(), 1);
}

#[test]
fn list_reports_a_failure_of_the_scheduler() {
    assert_eq!(list(Err(s("no crontab for me"))), Err(Error::IoFailure(s("no crontab for me"))));
}

#[test]
fn list_reports_a_malformed_line() {
    assert_eq!(list(Ok(s("autocommit\n"))), Err(Error::Parse(ParseError::MissingCadence)));
}

#[test]
fn list_gives_the_entries() {
    let registry = list(Ok(format!("{}\n", LINE_A))).unwrap();
    assert_eq!(keys(&registry), vec![s("/a")]);
}

#[test]
fn add_then_list_has_exactly_one_entry_for_the_path() {
    let mut registry = Registry::load(&format!("{}\n", LINE_A)).unwrap();
    assert_eq!(registry.add("/home/me/repo", true, 10, "/bin/autocommit"), Ok(()));
    assert_eq!(count(&registry, "/home/me/repo"), 1);
    assert_eq!(registry.entries().len(), 2);
    assert_eq!(
        registry.entries()[1],
        CronLine::scheduled("/home/me/repo", 10, "/bin/autocommit")
    );
    let table = registry.render(Some("key")).unwrap();
    let again = list(Ok(table)).unwrap();
    assert_eq!(again, registry);
    assert_eq!(count(&again, "/home/me/repo"), 1);
}

#[test]
fn add_twice_fails_as_a_duplicate_and_changes_nothing() {
    let mut registry = Registry::new();
    assert_eq!(registry.add("/r", true, 5, "autocommit"), Ok(()));
    let before = registry.clone();
    assert_eq!(registry.add("/r", true, 99, "other"), Err(Error::DuplicateEntry));
    assert_eq!(registry, before);
}

#[test]
fn add_outside_a_working_tree_fails_and_changes_nothing() {
    let mut registry = Registry::load(&format!("{}\n", LINE_A)).unwrap();
    let before = registry.clone();
    assert_eq!(registry.add("/tmp", false, 5, "autocommit"), Err(Error::NotAWorkingTree));
    assert_eq!(registry, before);
    assert_eq!(registry.add("/a", false, 5, "autocommit"), Err(Error::NotAWorkingTree));
}

#[test]
fn has_looks_at_the_second_argument() {
    let registry = Registry::load(&format!("{}\n", LINE_A)).unwrap();
    assert!(registry.has("/a"));
    assert!(!registry.has("/bin/autocommit"));
    assert!(!registry.has("run"));
    assert!(!registry.has("/a/"));
}

#[test]
fn remove_of_an_absent_path_fails_as_not_found_and_changes_nothing() {
    let mut registry = Registry::load(&format!("{}\n{}\n", LINE_A, LINE_B)).unwrap();
    let before = registry.clone();
    assert_eq!(registry.remove("/c"), Err(Error::NotFound));
    assert_eq!(registry, before);
    let mut empty = Registry::new();
    assert_eq!(empty.remove("/a"), Err(Error::NotFound));
}

#[test]
fn remove_after_add_leaves_no_entry_for_the_path() {
    let mut registry = Registry::load(&format!("{}\n", LINE_A)).unwrap();
    let before = registry.clone();
    registry.add("/r", true, 5, "autocommit").unwrap();
    assert_eq!(registry.remove("/r"), Ok(()));
    assert_eq!(count(&registry, "/r"), 0);
    assert_eq!(registry, before);
}

#[test]
fn remove_takes_every_entry_of_the_path_and_keeps_the_order_of_the_rest() {
    let table = format!("{}\n{}\n{}\n", LINE_A, LINE_B, LINE_A);
    let mut registry = Registry::load(&table).unwrap();
    assert_eq!(keys(&registry), vec![s("/a"), s("/b"), s("/a")]);
    assert_eq!(registry.remove("/a"), Ok(()));
    assert_eq!(keys(&registry), vec![s("/b")]);
}

#[test]
fn remove_keeps_entries_without_a_path() {
    let mut registry = Registry::from_entries(vec![
        CronLine::parse("* * * * * autocommit run").unwrap(),
        CronLine::parse(LINE_A).unwrap(),
    ]);
    assert_eq!(registry.remove("/a"), Ok(()));
    assert_eq!(registry.entries(), &vec![CronLine::parse("* * * * * autocommit run").unwrap()]);
}

#[test]
fn render_writes_the_credential_and_the_entries() {
    let registry = Registry::load(&format!("{}\n{}\n", LINE_A, LINE_B)).unwrap();
    assert_eq!(
        registry.render(Some("sk-1")).unwrap(),
        format!("OPENAI_API_KEY=sk-1\n\n{}\n{}\n", LINE_A, LINE_B)
    );
    assert_eq!(Registry::new().render(Some("k")).unwrap(), "OPENAI_API_KEY=k\n\n\n");
}

#[test]
fn render_fails_without_a_credential() {
    let registry = Registry::load(&format!("{}\n", LINE_A)).unwrap();
    assert_eq!(registry.render(None), Err(Error::MissingCredential));
}

#[test]
fn render_drops_the_lines_of_others() {
    let table = format!("0 3 * * * backup /home\n{}\n", LINE_A);
    let registry = Registry::load(&table).unwrap();
    assert_eq!(registry.render(Some("k")).unwrap(), format!("OPENAI_API_KEY=k\n\n{}\n", LINE_A));
}

#[test]
fn create_gives_the_table_with_the_new_entry() {
    let table = create(Ok(format!("{}\n", LINE_A)), "/b", true, 9, "/bin/autocommit", Some("k"));
    assert_eq!(table.unwrap(), format!("OPENAI_API_KEY=k\n\n{}\n{}\n", LINE_A, LINE_B));
}

#[test]
fn create_on_a_non_repository_path_fails_and_gives_no_table() {
    let r = create(Ok(format!("{}\n", LINE_A)), "/tmp", false, 5, "/bin/autocommit", Some("k"));
    assert_eq!(r, Err(Error::NotAWorkingTree));
}

#[test]
fn create_checks_the_path_before_anything_else() {
    assert_eq!(
        create(Err(s("down")), "/tmp", false, 5, "c", None),
        Err(Error::NotAWorkingTree)
    );
    assert_eq!(create(Ok(s("autocommit\n")), "/tmp", false, 5, "c", None), Err(Error::NotAWorkingTree));
}

#[test]
fn create_fails_in_the_order_of_its_steps() {
    assert_eq!(create(Err(s("down")), "/a", true, 5, "c", None), Err(Error::IoFailure(s("down"))));
    assert_eq!(
        create(Ok(s("autocommit\n")), "/a", true, 5, "c", None),
        Err(Error::Parse(ParseError::MissingCadence))
    );
    assert_eq!(
        create(Ok(format!("{}\n", LINE_A)), "/a", true, 5, "c", None),
        Err(Error::DuplicateEntry)
    );
    assert_eq!(
        create(Ok(format!("{}\n", LINE_A)), "/b", true, 5, "c", None),
        Err(Error::MissingCredential)
    );
}

#[test]
fn delete_gives_the_table_without_the_entry() {
    let table = delete(Ok(format!("{}\n{}\n", LINE_A, LINE_B)), "/a", Some("k"));
    assert_eq!(table.unwrap(), format!("OPENAI_API_KEY=k\n\n{}\n", LINE_B));
}

#[test]
fn delete_fails_in_the_order_of_its_steps() {
    assert_eq!(delete(Err(s("down")), "/a", None), Err(Error::IoFailure(s("down"))));
    assert_eq!(
        delete(Ok(s("* * * * * autocommit\n")), "/a", None),
        Err(Error::Parse(ParseError::MissingArguments))
    );
    assert_eq!(delete(Ok(format!("{}\n", LINE_A)), "/b", Some("k")), Err(Error::NotFound));
    assert_eq!(delete(Ok(format!("{}\n", LINE_A)), "/a", None), Err(Error::MissingCredential));
}

#[test]
fn create_then_delete_gives_the_first_table_back() {
    let first = format!("OPENAI_API_KEY=k\n\n{}\n", LINE_A);
    let second = create(Ok(first.clone()), "/b", true, 9, "/bin/autocommit", Some("k")).unwrap();
    let third = delete(Ok(second), "/b", Some("k")).unwrap();
    assert_eq!(third, first);
}

#[test]
fn a_path_with_a_space_is_not_read_back_as_it_was_written() {
    let mut registry = Registry::new();
    registry.add("/my repo", true, 5, "autocommit").unwrap();
    assert!(registry.has("/my repo"));
    let again = list(Ok(registry.render(Some("k")).unwrap())).unwrap();
    assert!(!again.has("/my repo"));
    assert!(again.has("/my"));
}
