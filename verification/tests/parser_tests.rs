use todo_tracker::mutate::{mark_todos, remove_todos};
use todo_tracker::todo::Todo;
use todo_tracker::todo_parser::find_todos;

#[test]
fn parse_one() {
    let input = "// TODO: Something";
    let expected = Todo {
        line: 1,
        prefix: "// ".to_owned(),
        keyword: "TODO".to_owned(),
        title: "Something".to_owned(),
        issue_id: None,
        comments: vec![],
    };

    assert_eq!(vec![expected], find_todos(&vec!["TODO".to_owned()], input))
}

#[test]
fn parse_comments() {
    let input = "// TODO: Something\n// More\n// And more";
    let expected = Todo {
        line: 1,
        prefix: "// ".to_owned(),
        keyword: "TODO".to_owned(),
        title: "Something".to_owned(),
        issue_id: None,
        comments: vec!["More".to_owned(), "And more".to_owned()],
    };

    assert_eq!(vec![expected], find_todos(&vec!["TODO".to_owned()], input))
}

#[test]
fn parse_comments_empty_line() {
    let input = "// TODO: Something\n// More\n// And more\n// ";
    let expected = Todo {
        line: 1,
        prefix: "// ".to_owned(),
        keyword: "TODO".to_owned(),
        title: "Something".to_owned(),
        issue_id: None,
        comments: vec!["More".to_owned(), "And more".to_owned(), "".to_owned()],
    };

    assert_eq!(vec![expected], find_todos(&vec!["TODO".to_owned()], input))
}

#[test]
fn parse_comment_escape() {
    let input = "// TODO: Something\n// More\n// And (\\d+) more";
    let expected = Todo {
        line: 1,
        prefix: "// ".to_owned(),
        keyword: "TODO".to_owned(),
        title: "Something".to_owned(),
        issue_id: None,
        comments: vec!["More".to_owned(), r"And (\d+) more".to_owned()],
    };

    assert_eq!(vec![expected], find_todos(&vec!["TODO".to_owned()], input))
}

#[test]
fn parse_issue_id() {
    let input = "// TODO(#42): Something";
    let expected = Todo {
        line: 1,
        prefix: "// ".to_owned(),
        keyword: "TODO".to_owned(),
        title: "Something".to_owned(),
        issue_id: Some(42),
        comments: vec![],
    };

    assert_eq!(vec![expected], find_todos(&vec!["TODO".to_owned()], input))
}

#[test]
fn parse_mutiple() {
    let input = "// TODO: Something\n// More\n// TODO: Other\n// comment";
    let expected_one = Todo {
        line: 1,
        prefix: "// ".to_owned(),
        keyword: "TODO".to_owned(),
        title: "Something".to_owned(),
        issue_id: None,
        comments: vec!["More".to_owned()],
    };

    let expected_two = Todo {
        line: 3,
        prefix: "// ".to_owned(),
        keyword: "TODO".to_owned(),
        title: "Other".to_owned(),
        issue_id: None,
        comments: vec!["comment".to_owned()],
    };

    assert_eq!(
        vec![expected_one, expected_two],
        find_todos(&vec!["TODO".to_owned()], input)
    )
}

#[test]
fn mark_single() {
    let input = "// TODO: Something\n\nSomething Else";
    let expected = Todo {
        line: 1,
        prefix: "// ".to_owned(),
        keyword: "TODO".to_owned(),
        title: "Something".to_owned(),
        issue_id: Some(42),
        comments: vec![],
    };

    assert_eq!(
        "// TODO(#42): Something\n\nSomething Else".to_owned(),
        mark_todos(input, &vec![expected])
    )
}

#[test]
fn mark_mutiple() {
    let input = "// TODO: Something\n\nSomething Else\n// TODO: Other";

    let todo_one = Todo {
        line: 1,
        prefix: "// ".to_owned(),
        keyword: "TODO".to_owned(),
        title: "Something".to_owned(),
        issue_id: Some(123),
        comments: vec!["More".to_owned()],
    };

    let todo_two = Todo {
        line: 3,
        prefix: "// ".to_owned(),
        keyword: "TODO".to_owned(),
        title: "Other".to_owned(),
        issue_id: Some(456),
        comments: vec!["comment".to_owned()],
    };

    assert_eq!(
        "// TODO(#123): Something\n\nSomething Else\n// TODO(#456): Other".to_owned(),
        mark_todos(input, &vec![todo_one, todo_two])
    )
}

#[test]
fn remove_simple() {
    let input = "// TODO(#42): Something\n\nSomething Else";
    let expected = Todo {
        line: 1,
        prefix: "// ".to_owned(),
        keyword: "TODO".to_owned(),
        title: "Something".to_owned(),
        issue_id: Some(42),
        comments: vec![],
    };

    assert_eq!(
        "\nSomething Else".to_owned(),
        remove_todos(input, &vec![expected])
    )
}

#[test]
fn remove_mutiple() {
    let input = "// TODO(#123): Something\n// More\nSomething Else\n// TODO(#456): Other";

    let todo_one = Todo {
        line: 1,
        prefix: "// ".to_owned(),
        keyword: "TODO".to_owned(),
        title: "Something".to_owned(),
        issue_id: Some(123),
        comments: vec!["More".to_owned()],
    };

    let todo_two = Todo {
        line: 3,
        prefix: "// ".to_owned(),
        keyword: "TODO".to_owned(),
        title: "Other".to_owned(),
        issue_id: Some(456),
        comments: vec![],
    };

    assert_eq!(
        "Something Else\n".to_owned(),
        remove_todos(input, &vec![todo_one, todo_two])
    )
}
