use libkuiper::locate::{header_dirs, is_request_file};
use libkuiper::{Entry, EntryKind, Headers, KuiperError, Params, Request};

fn entry(path: &str, kind: EntryKind) -> Entry {
    Entry {
        path: path.to_string(),
        kind,
    }
}

fn list(dir: &str) -> Vec<Entry> {
    match dir {
        "tree" => vec![
            entry("tree/users", EntryKind::Directory),
            entry("tree/get_status.kuiper", EntryKind::File),
            entry("tree/headers.json", EntryKind::File),
            entry("tree/orders", EntryKind::Directory),
            entry("tree/socket", EntryKind::Other),
        ],
        "tree/users" => vec![
            entry("tree/users/get_user.kuiper", EntryKind::File),
            entry("tree/users/get_user.txt", EntryKind::File),
            entry("tree/users/admin", EntryKind::Directory),
            entry("tree/users/get_user.kuiper.d", EntryKind::Directory),
        ],
        "tree/users/admin" => vec![
            entry("tree/users/admin/delete_user.kuiper", EntryKind::File),
            entry("tree/users/admin/.kuiper", EntryKind::File),
        ],
        "tree/orders" => vec![entry("tree/orders/get_order.kuiper", EntryKind::File)],
        _ => Vec::new(),
    }
}

fn walk(root: &str, term: &str) -> (Vec<String>, Vec<String>) {
    let mut search = Request::search(root.to_string(), term);
    let mut visited = Vec::new();
    while let Some(dir) = search.next_directory() {
        let entries = list(&dir);
        visited.push(dir);
        search.visit(entries);
    }
    assert!(search.is_done());
    (visited, search.into_matches())
}

fn request_named(name: &str) -> Request {
    Request::new(
        name.to_string(),
        "http://h".to_string(),
        Headers::new(),
        Params::new(),
        "GET".to_string(),
        None,
    )
}

fn found(paths: &[String]) -> Vec<Request> {
    paths.iter().map(|p| request_named(p)).collect()
}

#[test]
fn search_matching_one_file_returns_that_file() {
    let (_, matches) = walk("tree", "get_user");
    assert_eq!(matches, vec!["tree/users/get_user.kuiper".to_string()]);
    let request = Request::pick(found(&matches)).unwrap();
    assert_eq!(request.name(), "tree/users/get_user.kuiper");
}

#[test]
fn search_matching_no_file_is_not_found() {
    let (_, matches) = walk("tree", "put_user");
    assert!(matches.is_empty());
    let result = Request::pick(found(&matches));
    assert!(matches!(result, Err(KuiperError::RequestNotFound)), "{:?}", result);
}

#[test]
fn search_matching_two_files_is_ambiguous() {
    let (_, matches) = walk("tree", "_user");
    assert_eq!(
        matches,
        vec![
            "tree/users/get_user.kuiper".to_string(),
            "tree/users/admin/delete_user.kuiper".to_string()
        ]
    );
    let result = Request::pick(found(&matches));
    assert!(
        matches!(&result, Err(KuiperError::Ambiguous(names)) if names == &matches),
        "{:?}",
        result
    );
}

#[test]
fn search_walks_breadth_first() {
    let (visited, matches) = walk("tree", "");
    assert_eq!(
        visited,
        vec![
            "tree".to_string(),
            "tree/users".to_string(),
            "tree/orders".to_string(),
            "tree/users/admin".to_string(),
            "tree/users/get_user.kuiper.d".to_string(),
        ]
    );
    assert_eq!(
        matches,
        vec![
            "tree/get_status.kuiper".to_string(),
            "tree/users/get_user.kuiper".to_string(),
            "tree/orders/get_order.kuiper".to_string(),
            "tree/users/admin/delete_user.kuiper".to_string(),
        ]
    );
}

#[test]
fn search_term_is_matched_on_the_full_path_with_case() {
    let (_, matches) = walk("tree", "users/get");
    assert_eq!(matches, vec!["tree/users/get_user.kuiper".to_string()]);
    let (_, matches) = walk("tree", "GET_USER");
    assert!(matches.is_empty());
    let (_, matches) = walk("tree", "get_*");
    assert!(matches.is_empty());
}

#[test]
fn request_files_are_known_by_their_extension() {
    assert!(is_request_file("a.kuiper"));
    assert!(is_request_file("dir/a.kuiper"));
    assert!(is_request_file("/dir.d/.hidden.kuiper"));
    assert!(is_request_file("é.kuiper"));
    assert!(!is_request_file(".kuiper"));
    assert!(!is_request_file("dir/.kuiper"));
    assert!(!is_request_file("kuiper"));
    assert!(!is_request_file("a.kuiper.bak"));
    assert!(!is_request_file("a.Kuiper"));
    assert!(!is_request_file("akuiper"));
    assert!(!is_request_file(""));
    assert!(!is_request_file("dir.kuiper/a"));
}

#[test]
fn header_directories_of_paths() {
    assert_eq!(
        header_dirs("/home/me/requests/a.kuiper"),
        vec![
            "/home".to_string(),
            "/home/me".to_string(),
            "/home/me/requests".to_string()
        ]
    );
    assert!(header_dirs("/a.kuiper").is_empty());
    assert!(header_dirs("a.kuiper").is_empty());
    assert!(header_dirs("").is_empty());
    assert_eq!(header_dirs("a//b/f"), vec!["a".to_string(), "a//b".to_string()]);
}
