use todo_tracker::actions::{closed_todos, extract_todos, filter_todos};
use todo_tracker::config::ConfigError;
use todo_tracker::mutate::{mark_todos, remove_todos};
use todo_tracker::todo::Todo;
use todo_tracker::todo_parser::find_todos;

fn keywords() -> Vec<String> {
    vec!["TODO".to_owned()]
}

#[test]
fn extract_scenario() {
    let input = "// TODO: Something\n// More\n\nSomething Else";
    let expected = Todo {
        line: 1,
        prefix: "// ".to_owned(),
        keyword: "TODO".to_owned(),
        title: "Something".to_owned(),
        issue_id: None,
        comments: vec!["More".to_owned()],
    };

    assert_eq!(vec![expected], find_todos(&keywords(), input))
}

#[test]
fn mark_scenario() {
    let input = "// TODO: Something\n// More\n\nSomething Else";
    let mut todos = find_todos(&keywords(), input);
    todos[0].issue_id = Some(42);

    assert_eq!(
        "// TODO(#42): Something\n// More\n\nSomething Else".to_owned(),
        mark_todos(input, &todos)
    )
}

#[test]
fn mark_is_idempotent_on_scenario() {
    let input = "// TODO: Something\n// More\n\nSomething Else";
    let mut todos = find_todos(&keywords(), input);
    todos[0].issue_id = Some(42);

    let once = mark_todos(input, &todos);
    let twice = mark_todos(&once, &todos);

    assert_eq!(once, twice)
}

#[test]
fn remove_scenario() {
    let input = "// TODO(#42): Something\n\nSomething Else";
    let todo = Todo {
        line: 1,
        prefix: "// ".to_owned(),
        keyword: "TODO".to_owned(),
        title: "Something".to_owned(),
        issue_id: Some(42),
        comments: vec![],
    };

    assert_eq!("\nSomething Else".to_owned(), remove_todos(input, &vec![todo]))
}

#[test]
fn round_trip_of_marked_text() {
    let input = "fn f() {}\n// TODO: first\n// a note\nmid\n// TODO: second";
    let mut todos = find_todos(&keywords(), input);
    assert_eq!(2, todos.len());
    todos[0].issue_id = Some(7);
    todos[1].issue_id = Some(8);

    let marked = mark_todos(input, &todos);
    let again = find_todos(&keywords(), &marked);

    assert_eq!(2, again.len());
    assert_eq!(Some(7), again[0].issue_id);
    assert_eq!(Some(8), again[1].issue_id);
    assert_eq!(todos[0].title, again[0].title);
    assert_eq!(todos[1].title, again[1].title);
    assert_eq!(todos[0].comments, again[0].comments);
    assert_eq!(todos[1].comments, again[1].comments);
}

#[test]
fn extract_todos_without_keywords_is_refused() {
    let r = extract_todos(&[], "// TODO: Something");

    match r {
        Err(ConfigError::MissingValue(m)) => assert_eq!("keywords", m),
        _ => panic!("an empty keyword set must be refused"),
    }
}

#[test]
fn extract_todos_with_keywords() {
    let kw = keywords();
    let r = extract_todos(&kw, "// TODO: Something");

    assert_eq!(1, r.unwrap().len())
}

#[test]
fn unreported_pattern_escapes_metacharacters() {
    let todo = Todo {
        line: 1,
        prefix: "// ".to_owned(),
        keyword: "TODO".to_owned(),
        title: "a.b(c)".to_owned(),
        issue_id: None,
        comments: vec![],
    };

    assert_eq!("// TODO: a\\.b\\(c\\)".to_owned(), todo.unreported_pattern())
}

#[test]
fn filter_todos_by_flags() {
    let input = "// TODO(#1): reported\nx\n// TODO: open";
    let todos = find_todos(&keywords(), input);
    assert_eq!(2, todos.len());

    let only_reported = filter_todos(find_todos(&keywords(), input), true, false);
    assert_eq!(1, only_reported.len());
    assert_eq!("reported", only_reported[0].title);

    let only_unreported = filter_todos(find_todos(&keywords(), input), false, true);
    assert_eq!(1, only_unreported.len());
    assert_eq!("open", only_unreported[0].title);

    let both = filter_todos(find_todos(&keywords(), input), true, true);
    assert_eq!(2, both.len());
}

#[test]
fn closed_todos_by_id_set() {
    let input = "// TODO(#1): one\nx\n// TODO(#2): two\nx\n// TODO: open";
    let todos = find_todos(&keywords(), input);
    assert_eq!(3, todos.len());

    let closed = closed_todos(todos, &vec![2, 9]);
    assert_eq!(1, closed.len());
    assert_eq!("two", closed[0].title);
    assert_eq!(Some(2), closed[0].issue_id);
}

#[test]
fn display_multi_digit_line() {
    let todo = Todo {
        line: 105,
        prefix: "// ".to_owned(),
        keyword: "TODO".to_owned(),
        title: "Something".to_owned(),
        issue_id: Some(4294967295),
        comments: vec![],
    };

    assert_eq!("105: TODO(#4294967295): Something\n", todo.display_string())
}

#[test]
fn crlf_lines_are_recognized() {
    let input = "// TODO: one\r\n// more\r\nrest";
    let todos = find_todos(&keywords(), input);

    assert_eq!(1, todos.len());
    assert_eq!("one", todos[0].title);
    assert_eq!(vec!["more".to_owned()], todos[0].comments);
}

#[test]
fn remove_consumes_crlf_separators() {
    let input = "// TODO(#7): gone\r\n// note\r\nNext";
    let todo = Todo {
        line: 1,
        prefix: "// ".to_owned(),
        keyword: "TODO".to_owned(),
        title: "gone".to_owned(),
        issue_id: Some(7),
        comments: vec!["note".to_owned()],
    };

    assert_eq!("Next".to_owned(), remove_todos(input, &vec![todo]))
}

#[test]
fn marker_with_leading_zero_is_normalized() {
    let input = "// TODO(#07): Something";
    let todos = find_todos(&keywords(), input);

    assert_eq!(1, todos.len());
    assert_eq!(Some(7), todos[0].issue_id);
    assert_eq!(
        Some("// TODO(#7): Something".to_owned()),
        todos[0].reported_view()
    );
}

#[test]
fn marker_too_large_for_an_id_is_no_header() {
    let input = "// TODO(#99999999999): Something";

    assert_eq!(0, find_todos(&keywords(), input).len())
}

#[test]
fn gap_does_not_close_a_block() {
    let input = "// TODO: A\nplain line\n// late note";
    let todos = find_todos(&keywords(), input);

    assert_eq!(1, todos.len());
    assert_eq!(vec!["late note".to_owned()], todos[0].comments);
}

#[test]
fn keywords_in_prose_do_not_match() {
    let input = "this mentions TODO in passing\nand TODO: but, greedily, it does match";
    let todos = find_todos(&keywords(), input);

    assert_eq!(1, todos.len());
    assert_eq!(2, todos[0].line);
    assert_eq!("and ".to_owned(), todos[0].prefix);
    assert_eq!("but, greedily, it does match", todos[0].title);
}

#[test]
fn longest_keyword_wins_at_one_position() {
    let input = "// TODOS: Something";
    let todos = find_todos(&vec!["TODOS".to_owned(), "TODO".to_owned()], input);

    assert_eq!(1, todos.len());
    assert_eq!("TODOS", todos[0].keyword);
    assert_eq!("// ", todos[0].prefix);
}
