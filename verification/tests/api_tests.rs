use todo_tracker::api::create_comment_string;
use todo_tracker::todo::Todo;

#[test]
fn create_comments_normal() {
    let todo = Todo {
        line: 123,
        prefix: "//".to_owned(),
        keyword: "TODO".to_owned(),
        title: "Something".to_owned(),
        issue_id: None,
        comments: vec!["More".to_owned(), "And More".to_owned()],
    };

    assert_eq!("More And More", create_comment_string(&todo))
}

#[test]
fn create_comments_newline() {
    let todo = Todo {
        line: 123,
        prefix: "//".to_owned(),
        keyword: "TODO".to_owned(),
        title: "Something".to_owned(),
        issue_id: None,
        comments: vec!["More".to_owned(), "".to_owned(), "And More".to_owned()],
    };

    assert_eq!("More\nAnd More", create_comment_string(&todo))
}

#[test]
fn create_comments_empty() {
    let todo = Todo {
        line: 1,
        prefix: "//".to_owned(),
        keyword: "TODO".to_owned(),
        title: "Something".to_owned(),
        issue_id: None,
        comments: vec![],
    };

    assert_eq!("", create_comment_string(&todo))
}
