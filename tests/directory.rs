use mylib::command::{parse_command, read_field, Command, DirError, Field, Verb};
use mylib::directory::{Directory, Reply};
use mylib::text::split_words;

fn listing(r: Result<Reply, DirError>) -> Vec<String> {
    match r {
        Ok(Reply::Listing(l)) => l,
        Ok(Reply::Done) => panic!("expected a listing, got Done"),
        Ok(Reply::Exit) => panic!("expected a listing, got Exit"),
        Err(e) => panic!("expected a listing, got {:?}", e),
    }
}

fn done(r: Result<Reply, DirError>) {
    match r {
        Ok(Reply::Done) => {}
        Ok(_) => panic!("expected Done"),
        Err(e) => panic!("expected Done, got {:?}", e),
    }
}

fn failure(r: Result<Reply, DirError>) -> DirError {
    match r {
        Err(e) => e,
        Ok(_) => panic!("expected an error"),
    }
}

#[test]
fn move_scenario_lists_everyone() {
    let mut dir = Directory::new();
    done(dir.update("Add Sally to Engineering"));
    done(dir.update("Add Amir to Sales"));
    done(dir.update("Move Sally from Engineering to Sales"));
    assert_eq!(listing(dir.update("Print")), vec!["Amir (Sales)", "Sally (Sales)"]);
    assert_eq!(failure(dir.update("Print Engineering")), DirError::DepartmentNotFound);
}

#[test]
fn rename_scenario_sorts_new_name() {
    let mut dir = Directory::new();
    done(dir.update("Add Amir to Sales"));
    assert_eq!(listing(dir.update("Print Sales")), vec!["Amir"]);
    done(dir.update("Rename Amir in Sales to Zed"));
    assert_eq!(listing(dir.update("Print Sales")), vec!["Zed"]);
    done(dir.update("Add Mia to Sales"));
    done(dir.update("Add Bo to Sales"));
    done(dir.update("Rename Bo in Sales to Nia"));
    assert_eq!(listing(dir.update("Print Sales")), vec!["Mia", "Nia", "Zed"]);
}

#[test]
fn adds_keep_departments_sorted() {
    let mut dir = Directory::new();
    for name in ["Zoe", "Adam", "Mary Ann", "Bob", "Mary"] {
        dir.add_employee(name, "Research and Development").unwrap();
    }
    assert_eq!(
        dir.print_department("Research and Development").unwrap(),
        vec!["Adam", "Bob", "Mary", "Mary Ann", "Zoe"]
    );
}

#[test]
fn second_add_is_duplicate() {
    let mut dir = Directory::new();
    assert_eq!(dir.add_employee("Sally", "Engineering"), Ok(()));
    assert_eq!(dir.add_employee("Sally", "Engineering"), Err(DirError::DuplicateEmployee));
    assert_eq!(dir.print_department("Engineering").unwrap(), vec!["Sally"]);
}

#[test]
fn same_name_in_two_departments() {
    let mut dir = Directory::new();
    dir.add_employee("Sally", "Engineering").unwrap();
    dir.add_employee("Sally", "Sales").unwrap();
    assert_eq!(dir.print_all(), vec!["Sally (Engineering)", "Sally (Sales)"]);
}

#[test]
fn removing_last_employee_drops_department() {
    let mut dir = Directory::new();
    dir.add_employee("Sally", "Engineering").unwrap();
    assert_eq!(dir.remove_employee("Sally", "Engineering"), Ok(()));
    assert_eq!(dir.print_department("Engineering"), Err(DirError::DepartmentNotFound));
    assert!(dir.print_all().is_empty());
}

#[test]
fn remove_errors() {
    let mut dir = Directory::new();
    dir.add_employee("Sally", "Engineering").unwrap();
    assert_eq!(dir.remove_employee("Sally", "Sales"), Err(DirError::DepartmentNotFound));
    assert_eq!(dir.remove_employee("Amir", "Engineering"), Err(DirError::EmployeeNotFound));
    assert_eq!(dir.print_department("Engineering").unwrap(), vec!["Sally"]);
}

#[test]
fn move_onto_existing_name_changes_nothing() {
    let mut dir = Directory::new();
    dir.add_employee("Sally", "Engineering").unwrap();
    dir.add_employee("Sally", "Sales").unwrap();
    assert_eq!(
        dir.move_employee("Sally", "Engineering", "Sales"),
        Err(DirError::DuplicateEmployee)
    );
    assert_eq!(dir.print_department("Engineering").unwrap(), vec!["Sally"]);
    assert_eq!(dir.print_department("Sales").unwrap(), vec!["Sally"]);
}

#[test]
fn move_of_absent_employee() {
    let mut dir = Directory::new();
    dir.add_employee("Sally", "Engineering").unwrap();
    assert_eq!(dir.move_employee("Amir", "Engineering", "Sales"), Err(DirError::EmployeeNotFound));
    assert_eq!(dir.move_employee("Sally", "Legal", "Sales"), Err(DirError::EmployeeNotFound));
    assert_eq!(dir.print_department("Sales"), Err(DirError::DepartmentNotFound));
}

#[test]
fn rename_errors() {
    let mut dir = Directory::new();
    dir.add_employee("Amir", "Sales").unwrap();
    dir.add_employee("Zed", "Sales").unwrap();
    assert_eq!(dir.rename_employee("Amir", "Legal", "Bo"), Err(DirError::DepartmentNotFound));
    assert_eq!(dir.rename_employee("Bo", "Sales", "Cy"), Err(DirError::EmployeeNotFound));
    assert_eq!(dir.rename_employee("Amir", "Sales", "Zed"), Err(DirError::DuplicateEmployee));
    assert_eq!(dir.rename_employee("Amir", "Sales", ""), Err(DirError::MissingArgument));
    assert_eq!(dir.rename_employee("Amir", "Sales", "Amir"), Ok(()));
    assert_eq!(dir.print_department("Sales").unwrap(), vec!["Amir", "Zed"]);
}

#[test]
fn add_needs_both_fields() {
    let mut dir = Directory::new();
    assert_eq!(dir.add_employee("", "Sales"), Err(DirError::MissingArgument));
    assert_eq!(dir.add_employee("Amir", ""), Err(DirError::MissingArgument));
    assert!(dir.print_all().is_empty());
}

#[test]
fn print_everyone_sorts_by_label() {
    let mut dir = Directory::new();
    done(dir.update("Add Zed to Accounts"));
    done(dir.update("Add Al Jones to Sales"));
    done(dir.update("Add Al to Support"));
    assert_eq!(
        listing(dir.update("Print")),
        vec!["Al (Support)", "Al Jones (Sales)", "Zed (Accounts)"]
    );
}

#[test]
fn command_line_errors() {
    let mut dir = Directory::new();
    assert_eq!(failure(dir.update("Add Sally")), DirError::Malformed);
    assert_eq!(failure(dir.update("Add to Sales")), DirError::MissingArgument);
    assert_eq!(failure(dir.update("Add Sally to")), DirError::MissingArgument);
    assert_eq!(failure(dir.update("Move Sally from Sales")), DirError::Malformed);
    assert_eq!(failure(dir.update("Rename Amir to Zed")), DirError::Malformed);
    assert_eq!(failure(dir.update("   ")), DirError::NoCommand);
    assert_eq!(failure(dir.update("Help me")), DirError::TrailingText);
    assert_eq!(failure(dir.update("add Sally to Sales")), DirError::UnknownCommand(Some(Verb::Add)));
    assert_eq!(failure(dir.update("PRINT")), DirError::UnknownCommand(Some(Verb::Print)));
    assert_eq!(failure(dir.update("Fire Sally")), DirError::UnknownCommand(None));
    assert!(dir.print_all().is_empty());
}

#[test]
fn help_and_exit() {
    let mut dir = Directory::new();
    let help = listing(dir.update("Help"));
    assert_eq!(help, Directory::help());
    assert_eq!(help[0], "Add Employee:\t\t\t\"Add 'name' to 'department'\"");
    assert!(matches!(dir.update("Exit"), Ok(Reply::Exit)));
}

#[test]
fn parses_multi_word_fields() {
    match parse_command("  Move  Mary   Ann from Human Resources to Research and Development ") {
        Ok(Command::Move { name, from, to }) => {
            assert_eq!(name, "Mary Ann");
            assert_eq!(from, "Human Resources");
            assert_eq!(to, "Research and Development");
        }
        _ => panic!("expected a move"),
    }
    match parse_command("Print") {
        Ok(Command::Print { department }) => assert_eq!(department, ""),
        _ => panic!("expected a print"),
    }
}

#[test]
fn read_field_stops_at_keyword() {
    let words = split_words("Mary Ann to Sales Team");
    assert_eq!(words, vec!["Mary", "Ann", "to", "Sales", "Team"]);
    match read_field(&words, 0, Some("to")) {
        (Field::Present(s), p) => {
            assert_eq!(s, "Mary Ann");
            assert_eq!(p, 3);
        }
        _ => panic!("expected a field"),
    }
    match read_field(&words, 3, None) {
        (Field::Present(s), p) => {
            assert_eq!(s, "Sales Team");
            assert_eq!(p, 5);
        }
        _ => panic!("expected a field"),
    }
    assert!(matches!(read_field(&words, 2, Some("to")), (Field::Empty, 3)));
    assert!(matches!(read_field(&words, 3, Some("to")), (Field::Malformed, 5)));
    assert!(matches!(read_field(&words, 5, None), (Field::Empty, 5)));
}
