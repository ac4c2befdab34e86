use libkuiper::inherit::{gather_headers, overwrite_headers};
use libkuiper::locate::header_dirs;
use libkuiper::{
    Environment, HeaderFile, Headers, InterpolationError, KuiperError, Params, Request,
};

fn headers_of(pairs: &[(&str, Option<&str>)]) -> Headers {
    let mut headers = Headers::new();
    for (name, value) in pairs {
        headers.insert(name.to_string(), value.map(|v| v.to_string()));
    }
    headers
}

fn params_of(pairs: &[(&str, &str)]) -> Params {
    let mut params = Params::new();
    for (name, value) in pairs {
        params.insert(name.to_string(), value.to_string());
    }
    params
}

fn env_of(pairs: &[(&str, &str)]) -> Environment {
    let mut env = Environment::new();
    for (name, value) in pairs {
        env.set(name.to_string(), value.to_string());
    }
    env
}

fn assert_headers_eq(left: &Headers, right: &Headers) {
    assert_eq!(left.len(), right.len());
    for i in 0..left.len() {
        let name = left.name_at(i);
        let right_value = match right.get(name) {
            Some(value) => value,
            None => panic!("right headers do not contain key '{:?}'", name),
        };
        assert_eq!(
            left.value_at(i),
            right_value,
            "headers differ at key '{:?}'",
            name
        );
    }
}

fn header_file(dir: &str, pairs: &[(&str, Option<&str>)]) -> HeaderFile {
    HeaderFile {
        dir: dir.to_string(),
        headers: headers_of(pairs),
    }
}

fn root_header_file() -> HeaderFile {
    header_file(
        "../requests",
        &[
            ("root_header_1", Some("root_value_1")),
            ("root_header_2", Some("root_value_2")),
            ("root_header_3", Some("root_value_3")),
        ],
    )
}

fn definition(path: &str, uri: &str, headers: Headers, params: Params) -> Request {
    Request::new(
        path.to_string(),
        uri.to_string(),
        headers,
        params,
        "GET".to_string(),
        None,
    )
}

#[test]
fn ancestors_rev_test() {
    let reversed = header_dirs("x/y/z/f.kuiper");

    assert_eq!(
        reversed,
        vec!["x".to_string(), "x/y".to_string(), "x/y/z".to_string()]
    );
}

#[test]
fn root_request_test() {
    let file = definition(
        "../requests/request_in_root.kuiper",
        "http://www.example.com",
        headers_of(&[("root_header_3", None)]),
        Params::new(),
    );
    let request = Request::find(file, &vec![root_header_file()], &Environment::new()).unwrap();
    assert_eq!(request.uri(), "http://www.example.com");
    let expected_headers = headers_of(&[
        ("root_header_1", Some("root_value_1")),
        ("root_header_2", Some("root_value_2")),
        ("root_header_3", None),
    ]);

    assert_headers_eq(request.headers(), &expected_headers);
}

#[test]
fn subdir_request_test() {
    let file = definition(
        "../requests/subdir/request_in_subdir.kuiper",
        "http://localhost/api/user/1",
        headers_of(&[(
            "request_specific_header_1",
            Some("request_specific_header_value_1"),
        )]),
        Params::new(),
    );
    let subdir_header_file = header_file(
        "../requests/subdir",
        &[
            ("root_header_2", Some("subdir_value_2")),
            ("subdir_header_1", Some("subdir_value_1")),
        ],
    );
    let request = Request::find(
        file,
        &vec![subdir_header_file, root_header_file()],
        &Environment::new(),
    )
    .unwrap();
    assert_eq!(request.uri(), "http://localhost/api/user/1");
    let expected_headers = headers_of(&[
        ("root_header_1", Some("root_value_1")),
        ("root_header_2", Some("subdir_value_2")),
        ("root_header_3", Some("root_value_3")),
        ("subdir_header_1", Some("subdir_value_1")),
        (
            "request_specific_header_1",
            Some("request_specific_header_value_1"),
        ),
    ]);

    assert_headers_eq(request.headers(), &expected_headers);
}

#[test]
fn interpolation_test() {
    let env = env_of(&[
        ("ENV_1", "123"),
        ("ROUTE", "route_value"),
        ("HEADER_VALUE", "1234"),
    ]);
    let file = definition(
        "../requests/interpolation.kuiper",
        "http://localhost/{{env:ROUTE}}",
        headers_of(&[("interpolated_header", Some("{{env:HEADER_VALUE}}"))]),
        params_of(&[
            ("env_1", "{{env:ENV_1}}"),
            ("expr_uuid", "{{expr:uuid}}"),
            ("expr_now", "{{expr:now}}"),
        ]),
    );
    let interpolated_request = Request::find(file, &vec![root_header_file()], &env).unwrap();

    assert_eq!(interpolated_request.params().len(), 3);
    assert_eq!(interpolated_request.params().get("env_1").unwrap(), "123");
    assert!(interpolated_request
        .params()
        .get("expr_uuid")
        .unwrap()
        .parse::<uuid::Uuid>()
        .is_ok());
    assert!(interpolated_request
        .params()
        .get("expr_now")
        .unwrap()
        .parse::<jiff::Timestamp>()
        .is_ok());

    assert_eq!(interpolated_request.uri(), "http://localhost/route_value");

    let expected_headers = headers_of(&[
        ("root_header_1", Some("root_value_1")),
        ("root_header_2", Some("root_value_2")),
        ("root_header_3", Some("root_value_3")),
        ("interpolated_header", Some("1234")),
    ]);
    assert_headers_eq(interpolated_request.headers(), &expected_headers);
}

#[test]
fn interpolation_error_test() {
    let env = Environment::new();
    let result = Request::interpolate_str("asd{{env:{{env:abc}}", &env);
    assert!(
        matches!(&result, Err(KuiperError::InterpolationError(InterpolationError::MissingEnvVar(var))) if var == "{{env:abc"),
        "{:?}",
        result
    );

    let result = Request::interpolate_str("{{e{{nv:hello}}}}", &env);
    assert!(
        matches!(
            &result,
            Err(KuiperError::InterpolationError(
                InterpolationError::InvalidFormat
            ))
        ),
        "{:?}",
        result
    );
}

#[test]
fn file_header_wins_over_every_directory() {
    let file = definition(
        "/root/sub/req.kuiper",
        "http://h",
        headers_of(&[("B", Some("own"))]),
        Params::new(),
    );
    let files = vec![
        header_file("/root", &[("B", Some("outer"))]),
        header_file("/root/sub", &[("B", Some("inner"))]),
    ];
    let request = Request::find(file, &files, &Environment::new()).unwrap();
    assert_eq!(request.headers().len(), 1);
    assert_eq!(request.headers().get("B"), Some(&Some("own".to_string())));
}

#[test]
fn deeper_directory_wins_over_outer_one() {
    let layers = vec![
        Some(headers_of(&[("B", Some("outer")), ("A", Some("1"))])),
        None,
        Some(headers_of(&[("B", Some("inner"))])),
    ];
    let gathered = gather_headers(layers);
    assert_eq!(gathered.get("B"), Some(&Some("inner".to_string())));
    assert_eq!(gathered.get("A"), Some(&Some("1".to_string())));
    assert_eq!(gathered.len(), 2);
    assert_eq!(gathered.name_at(0), "B");
    assert_eq!(gathered.name_at(1), "A");
}

#[test]
fn directory_without_header_file_contributes_nothing() {
    let with_gap = gather_headers(vec![
        Some(headers_of(&[("A", Some("1"))])),
        None,
        Some(headers_of(&[("C", None)])),
    ]);
    let without_gap = gather_headers(vec![
        Some(headers_of(&[("A", Some("1"))])),
        Some(headers_of(&[("C", None)])),
    ]);
    assert_headers_eq(&with_gap, &without_gap);
    assert_headers_eq(&without_gap, &with_gap);

    let mut headers = headers_of(&[("A", Some("1"))]);
    overwrite_headers(None, &mut headers);
    assert_headers_eq(&headers, &headers_of(&[("A", Some("1"))]));
    overwrite_headers(Some(headers_of(&[("A", None), ("Z", Some("9"))])), &mut headers);
    assert_headers_eq(&headers, &headers_of(&[("A", None), ("Z", Some("9"))]));
}

#[test]
fn headers_are_inherited_through_two_directories() {
    let file = definition(
        "root/subdir/req",
        "http://h",
        headers_of(&[("D", Some("5"))]),
        Params::new(),
    );
    let files = vec![
        header_file("root", &[("A", Some("1")), ("B", Some("2"))]),
        header_file("root/subdir", &[("B", Some("3")), ("C", Some("4"))]),
    ];
    let request = Request::find(file, &files, &Environment::new()).unwrap();
    let expected = headers_of(&[
        ("A", Some("1")),
        ("B", Some("3")),
        ("C", Some("4")),
        ("D", Some("5")),
    ]);
    assert_headers_eq(request.headers(), &expected);
    assert_headers_eq(&expected, request.headers());
    assert_eq!(request.headers().name_at(0), "D");
    assert_eq!(request.name(), "root/subdir/req");
    assert_eq!(request.method(), "GET");
}

#[test]
fn add_header_keeps_the_header_that_is_there() {
    let mut request = definition(
        "r",
        "http://h",
        headers_of(&[("A", Some("1"))]),
        Params::new(),
    );
    request.add_header_if_not_exists("A".to_string(), Some("2".to_string()));
    request.add_header_if_not_exists("B".to_string(), None);
    assert_headers_eq(
        request.headers(),
        &headers_of(&[("A", Some("1")), ("B", None)]),
    );
}

#[test]
fn body_without_placeholders_is_unchanged() {
    let text = r#"{"a":[1,2,{"b":null}],"c":"x y","d":true,"e":-3}"#;
    let body: serde_json::Value = serde_json::from_str(text).unwrap();
    let file = Request::new(
        "r".to_string(),
        "http://h".to_string(),
        Headers::new(),
        Params::new(),
        "POST".to_string(),
        Some(body.clone()),
    );
    let request = Request::find(file, &Vec::new(), &Environment::new()).unwrap();
    assert_eq!(request.body(), Some(&body));
    assert_eq!(request.method(), "POST");
}

#[test]
fn body_placeholders_are_replaced() {
    let body: serde_json::Value =
        serde_json::from_str(r#"{"user":"{{env:FOO}}","n":1}"#).unwrap();
    let expected: serde_json::Value = serde_json::from_str(r#"{"user":"bar","n":1}"#).unwrap();
    let file = Request::new(
        "r".to_string(),
        "http://h".to_string(),
        Headers::new(),
        Params::new(),
        "POST".to_string(),
        Some(body),
    );
    let request = file.interpolate(&env_of(&[("FOO", "bar")])).unwrap();
    assert_eq!(request.body(), Some(&expected));
}

#[test]
fn body_that_is_no_json_after_interpolation_is_an_error() {
    let body: serde_json::Value = serde_json::from_str(r#"{"user":"{{env:FOO}}"}"#).unwrap();
    let file = Request::new(
        "r".to_string(),
        "http://h".to_string(),
        Headers::new(),
        Params::new(),
        "POST".to_string(),
        Some(body),
    );
    let result = file.interpolate(&env_of(&[("FOO", "a\"b")]));
    assert!(matches!(result, Err(KuiperError::JsonError(_))), "{:?}", result);
}

#[test]
fn null_body_becomes_no_body() {
    let mut request = Request::new(
        "r".to_string(),
        "http://h".to_string(),
        Headers::new(),
        Params::new(),
        "POST".to_string(),
        Some(serde_json::Value::Null),
    );
    request.interpolate_body(&Environment::new()).unwrap();
    assert_eq!(request.body(), None);
}

#[test]
fn first_failure_in_field_order_is_reported() {
    let env = Environment::new();
    let file = definition(
        "r",
        "http://h/{{env:URI}}",
        headers_of(&[("H", Some("{{bad:x}}"))]),
        params_of(&[("p", "{{expr:nope}}")]),
    );
    let result = file.interpolate(&env);
    assert!(
        matches!(&result, Err(KuiperError::InterpolationError(InterpolationError::MissingEnvVar(var))) if var == "URI"),
        "{:?}",
        result
    );

    let file = definition(
        "r",
        "http://h",
        headers_of(&[("G", None), ("H", Some("{{bad:x}}"))]),
        params_of(&[("p", "{{expr:nope}}")]),
    );
    let result = file.interpolate(&env);
    assert!(
        matches!(
            &result,
            Err(KuiperError::InterpolationError(InterpolationError::InvalidFormat))
        ),
        "{:?}",
        result
    );

    let mut request = definition("r", "http://h", Headers::new(), params_of(&[("p", "{{expr:nope}}")]));
    let result = request.interpolate_params(&env);
    assert!(
        matches!(&result, Err(KuiperError::InterpolationError(InterpolationError::InvalidExpr(name))) if name == "nope"),
        "{:?}",
        result
    );
    assert_eq!(request.params().get("p").unwrap(), "{{expr:nope}}");
}

#[test]
fn failed_step_leaves_the_request_as_it_was() {
    let env = env_of(&[("A", "1")]);
    let mut request = definition(
        "r",
        "http://h/{{env:MISSING}}",
        headers_of(&[("H", Some("{{env:A}}")), ("I", Some("{{env:MISSING}}"))]),
        Params::new(),
    );
    assert!(request.interpolate_uri(&env).is_err());
    assert_eq!(request.uri(), "http://h/{{env:MISSING}}");
    assert!(request.interpolate_headers(&env).is_err());
    assert_eq!(
        request.headers().get("H"),
        Some(&Some("{{env:A}}".to_string()))
    );
}

#[test]
fn layers_are_those_of_the_directories_above_the_file() {
    let files = vec![
        header_file("/x/y/z/f.kuiper", &[("F", Some("file itself"))]),
        header_file("/x/y/z", &[("A", Some("z")), ("Z", Some("z"))]),
        header_file("/", &[("R", Some("root"))]),
        header_file("/x", &[("A", Some("x")), ("X", Some("x"))]),
        header_file("/x/y", &[("A", Some("y")), ("X", None)]),
        header_file("/other", &[("O", Some("other"))]),
        header_file("/x", &[("A", Some("second /x")), ("S", Some("second /x"))]),
        header_file("/x/y/z/deeper", &[("D", Some("deeper"))]),
    ];
    let file = definition("/x/y/z/f.kuiper", "http://h", Headers::new(), Params::new());
    let request = Request::find(file, &files, &Environment::new()).unwrap();
    let expected = headers_of(&[("A", Some("z")), ("X", None), ("Z", Some("z"))]);
    assert_headers_eq(request.headers(), &expected);
    assert_headers_eq(&expected, request.headers());
    assert_eq!(request.headers().name_at(0), "A");
    assert_eq!(request.headers().name_at(1), "X");
    assert_eq!(request.headers().name_at(2), "Z");

    let layers = libkuiper::inherit::scope_layers("/x/y/z/f.kuiper", &files);
    assert_eq!(layers.len(), 3);
    assert_eq!(layers[0].as_ref().unwrap().get("X"), Some(&Some("x".to_string())));
    assert_eq!(layers[1].as_ref().unwrap().get("A"), Some(&Some("y".to_string())));
    assert_eq!(layers[2].as_ref().unwrap().get("Z"), Some(&Some("z".to_string())));
    let layers = libkuiper::inherit::scope_layers("/x/q/f.kuiper", &files);
    assert_eq!(layers.len(), 2);
    assert!(layers[0].is_some());
    assert!(layers[1].is_none());
}

#[test]
fn only_headers_with_a_value_are_sent() {
    let request = definition(
        "r",
        "http://h",
        headers_of(&[("A", Some("1")), ("B", None), ("C", Some("")), ("D", Some("4"))]),
        Params::new(),
    );
    assert_eq!(
        request.headers_to_send(),
        vec![
            ("A".to_string(), "1".to_string()),
            ("C".to_string(), "".to_string()),
            ("D".to_string(), "4".to_string()),
        ]
    );
    let request = definition("r", "http://h", headers_of(&[("B", None)]), Params::new());
    assert!(request.headers_to_send().is_empty());
}

#[test]
fn headers_are_copied_with_their_order() {
    let headers = headers_of(&[("B", Some("2")), ("A", None)]);
    let copy = libkuiper::inherit::copy_headers(&headers);
    assert_headers_eq(&headers, &copy);
    assert_headers_eq(&copy, &headers);
    assert_eq!(copy.name_at(0), "B");
    assert_eq!(copy.name_at(1), "A");
}

#[test]
fn requests_are_cloned_and_compared() {
    let body: serde_json::Value = serde_json::from_str(r#"{"a":1}"#).unwrap();
    let request = Request::new(
        "r".to_string(),
        "http://h".to_string(),
        headers_of(&[("A", Some("1")), ("B", None)]),
        params_of(&[("p", "1"), ("q", "2")]),
        "GET".to_string(),
        Some(body),
    );
    let copy = request.clone();
    assert_eq!(copy, request);
    let reordered = Request::new(
        "r".to_string(),
        "http://h".to_string(),
        headers_of(&[("B", None), ("A", Some("1"))]),
        params_of(&[("q", "2"), ("p", "1")]),
        "GET".to_string(),
        copy.body().cloned(),
    );
    assert_eq!(reordered, request);
    let mut other = request.clone();
    other.add_header_if_not_exists("C".to_string(), None);
    assert_ne!(other, request);
}
