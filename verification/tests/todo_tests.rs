use todo_tracker::todo::Todo;

#[test]
fn display_without_issue_and_comments() {
    let todo = Todo {
        line: 10,
        prefix: String::from("// "),
        keyword: String::from("TODO"),
        title: String::from("Something"),
        issue_id: None,
        comments: vec![],
    };

    assert_eq!("10: TODO: Something\n", todo.display_string())
}

#[test]
fn display_with_issue() {
    let todo = Todo {
        line: 10,
        prefix: String::from("// "),
        keyword: String::from("TODO"),
        title: String::from("Something"),
        issue_id: Some(42),
        comments: vec![],
    };

    assert_eq!("10: TODO(#42): Something\n", todo.display_string())
}

#[test]
fn display_with_comments() {
    let todo = Todo {
        line: 10,
        prefix: String::from("// "),
        keyword: String::from("TODO"),
        title: String::from("Something"),
        issue_id: None,
        comments: vec!["More".to_owned(), "And More".to_owned()],
    };

    assert_eq!("10: TODO: Something\n  More\n  And More\n", todo.display_string())
}

#[test]
fn reported_view_none() {
    let todo = Todo {
        line: 10,
        prefix: String::from("// "),
        keyword: String::from("TODO"),
        title: String::from("Something"),
        issue_id: None,
        comments: vec!["More".to_owned(), "And More".to_owned()],
    };

    assert_eq!(None, todo.reported_view())
}

#[test]
fn reported_view_some() {
    let todo = Todo {
        line: 10,
        prefix: String::from("// "),
        keyword: String::from("TODO"),
        title: String::from("Something"),
        issue_id: Some(123),
        comments: vec!["More".to_owned(), "And More".to_owned()],
    };

    assert_eq!(Some("// TODO(#123): Something".to_owned()), todo.reported_view())
}

#[test]
fn unreported_view() {
    let todo = Todo {
        line: 10,
        prefix: String::from("// "),
        keyword: String::from("TODO"),
        title: String::from("Something"),
        issue_id: Some(123),
        comments: vec!["More".to_owned(), "And More".to_owned()],
    };

    assert_eq!("// TODO: Something".to_owned(), todo.unreported_pattern())
}

#[test]
fn reported_with_comments() {
    let todo = Todo {
        line: 10,
        prefix: String::from("// "),
        keyword: String::from("TODO"),
        title: String::from("Something"),
        issue_id: Some(123),
        comments: vec!["More".to_owned(), "And More".to_owned()],
    };

    assert_eq!(
        Some(
            "// TODO\\(\\#123\\): Something(\r\n|\n)// More(\r\n|\n)// And More(\r\n|\n)?"
                .to_owned()
        ),
        todo.reported_pattern()
    )
}

#[test]
fn reported_with_comments_com_empty() {
    let todo = Todo {
        line: 10,
        prefix: String::from("// "),
        keyword: String::from("TODO"),
        title: String::from("Something"),
        issue_id: Some(123),
        comments: vec![],
    };

    assert_eq!(
        Some("// TODO\\(\\#123\\): Something(\r\n|\n)?".to_owned()),
        todo.reported_pattern()
    )
}
