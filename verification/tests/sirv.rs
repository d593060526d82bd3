use imageguide::sirv::{
    ancestor_dirs, classify, content_type, credentials_path, download_url, encode_path,
    load_credentials, mkdir_url, parse_credentials, push_folders, readdir_failed, relative_key,
    render_credentials, safe_key, status_error, store_path_in, token_failed, token_fresh,
    token_url, transport_error, unpair_remote, upload_url, Client, Credentials, Environment, Error,
    Failure, Node, Platform, Step, SyncState, Walk,
};

fn node(filename: &str, kind: &str, size: u64) -> Node {
    Node {
        filename: filename.to_string(),
        kind: kind.to_string(),
        size,
    }
}

fn credentials(id: &str, secret: &str) -> Credentials {
    Credentials {
        client_id: id.to_string(),
        client_secret: secret.to_string(),
    }
}

#[test]
fn paths_escape_for_query_strings() {
    assert_eq!(encode_path("/a b/c.jpg"), "%2Fa%20b%2Fc.jpg");
    assert_eq!(encode_path("/plain/file.webp"), "%2Fplain%2Ffile.webp");
    assert_eq!(encode_path("-_.~"), "-_.~");
}

#[test]
fn paths_escape_byte_by_byte() {
    for path in ["héllo", "日本/写真.png", "a%b", "\u{10ffff}\u{7f}", ""] {
        let expected: String = path
            .bytes()
            .map(|byte| match byte {
                b'A'..=b'Z' | b'a'..=b'z' | b'0'..=b'9' | b'-' | b'_' | b'.' | b'~' => {
                    (byte as char).to_string()
                }
                _ => format!("%{byte:02X}"),
            })
            .collect();
        assert_eq!(encode_path(path), expected);
    }
}

#[test]
fn classification_covers_the_three_states() {
    let node = node("/d/a.png", "file", 100);
    assert_eq!(classify(100, Some(&node)), SyncState::Same);
    assert_eq!(classify(101, Some(&node)), SyncState::Changed);
    assert_eq!(classify(100, None), SyncState::OnlyLocal);
}

#[test]
fn relative_keys_use_forward_slashes() {
    assert_eq!(
        relative_key("/photos", "/photos/sub/a.jpg"),
        Some("sub/a.jpg".into())
    );
    assert_eq!(relative_key("/photos", "/elsewhere/a.jpg"), None);
    assert_eq!(relative_key("/photos", "/photos"), Some("".into()));
    assert_eq!(relative_key("/photos", "/photos2/a.jpg"), None);
}

#[test]
fn remote_names_unpair_against_the_folder() {
    assert_eq!(
        unpair_remote("/photos", "/photos/sub/a.jpg"),
        Some("sub/a.jpg".into())
    );
    assert_eq!(
        unpair_remote("/photos/", "/photos/a.jpg"),
        Some("a.jpg".into())
    );
    assert_eq!(unpair_remote("/photos", "/other/a.jpg"), None);
}

#[test]
fn readdir_parses_files_and_folders_leniently() {
    let listed: Vec<serde_json::Value> = serde_json::from_str(
        r#"[
            {"type":"folder","filename":"/photos/sub","mtime":"2026-01-01T00:00:00Z"},
            {"type":"file","filename":"/photos/a.jpg","size":1234,"width":80,"height":60},
            {"type":"file","filename":"/photos/b.png","size":0}
        ]"#,
    )
    .unwrap();
    let nodes: Vec<Node> = listed
        .iter()
        .map(|value| {
            Node::listed(
                value["filename"].as_str().map(str::to_string),
                value["type"].as_str().map(str::to_string),
                value["size"].as_u64(),
            )
        })
        .collect();
    assert_eq!(nodes.len(), 3);
    assert!(nodes[0].is_folder());
    assert_eq!(nodes[1].size, 1234);
    assert_eq!(nodes[2].filename, "/photos/b.png");
    assert!(!nodes[2].is_folder());
    assert_eq!(nodes[0].size, 0, "a folder comes without a size");
    let empty = Node::listed(None, None, None);
    assert_eq!((empty.filename.as_str(), empty.kind.as_str(), empty.size), ("", "", 0));
}

#[test]
fn credentials_round_trip_through_the_store() {
    assert_eq!(store_path_in("/base"), "/base/imageguide/sirv");
    assert!(load_credentials(None).is_none());
    let stored = render_credentials(&credentials("an id with spaces", "s3cret/with:colons"));
    let back = load_credentials(Some(stored.as_str())).unwrap();
    assert_eq!(back.client_id, "an id with spaces");
    assert_eq!(back.client_secret, "s3cret/with:colons");
}

#[test]
fn incomplete_credentials_are_none() {
    assert!(parse_credentials("client_id=a\n").is_none());
    assert!(parse_credentials("client_secret=b\n").is_none());
    assert!(parse_credentials("client_id=a\nclient_secret=b").is_some());
}

#[test]
fn the_store_follows_the_platform() {
    let environment = Environment {
        appdata: None,
        home: Some("/home/me".to_string()),
        xdg_config_home: Some("/xdg/".to_string()),
    };
    assert_eq!(
        credentials_path(Platform::Other, &environment).as_deref(),
        Some("/xdg/imageguide/sirv")
    );
    assert_eq!(credentials_path(Platform::Windows, &environment), None);
}

#[test]
fn keys_that_climb_out_are_not_safe() {
    assert!(safe_key("a/b.jpg"));
    assert!(safe_key("a//b"));
    for key in ["", "../a", "a/../b", "/a", "..", "./a"] {
        assert!(!safe_key(key), "{key:?}");
    }
}

#[test]
fn folders_are_made_outer_ones_first_and_once() {
    assert_eq!(ancestor_dirs("a/b/c.jpg"), ["a", "a/b"]);
    assert!(ancestor_dirs("c.jpg").is_empty());
    let keys: Vec<String> = ["a/b/1.jpg", "a/2.jpg", "c/3.jpg", "a/b/4.jpg"]
        .iter()
        .map(|key| key.to_string())
        .collect();
    assert_eq!(push_folders(&keys), ["a", "a/b", "c"]);
}

#[test]
fn tokens_are_refreshed_a_minute_early() {
    assert!(token_fresh(1_139_999, 0, 1200));
    assert!(!token_fresh(1_140_000, 0, 1200));
    assert!(!token_fresh(5, 0, 30));
    assert!(token_fresh(5, 9, 61), "a clock that stands still is no reason");
}

#[test]
fn errors_keep_their_status_and_words() {
    let error = Error {
        status: 403,
        message: "no".to_string(),
    };
    assert_eq!(error.text(), "Sirv 403: no");
    assert_eq!(status_error("readdir", 500, "oops").status, 500);
    assert_eq!(transport_error("token", "offline").status, 0);
    assert_eq!(status_error("mkdir", 409, "no\nroom").message, "mkdir: no\nroom");
}

#[test]
fn a_listing_fetches_a_token_first_and_once_more_where_it_is_refused() {
    let mut client = Client::new(credentials("id", "secret"));
    let (mut reading, step) = client.readdir("/my photos", 10);
    assert!(matches!(step, Step::Authenticate), "{step:?}");
    let issued = |value: &str| Ok((value.to_string(), 1200));
    let refused = || {
        Err(Error {
            status: 401,
            message: "expired".to_string(),
        })
    };

    let asked = |step: Step| match step {
        Step::List { url, authorization } => (url, authorization),
        other => panic!("{other:?}"),
    };
    let (url, authorization) = asked(client.authenticated(&mut reading, issued("one"), 10));
    assert_eq!(
        url,
        "https://api.sirv.com/v2/files/readdir?dirname=%2Fmy%20photos"
    );
    assert_eq!(authorization, "Bearer one");

    let step = client.listed(&mut reading, refused());
    assert!(matches!(step, Step::Authenticate), "{step:?}");
    assert!(client.token.is_none());
    let (_, authorization) = asked(client.authenticated(&mut reading, issued("two"), 20));
    assert_eq!(authorization, "Bearer two");
    match client.listed(&mut reading, refused()) {
        Step::Done(Err(error)) => assert_eq!(error.text(), "Sirv 401: expired"),
        other => panic!("{other:?}"),
    }

    let (mut reading, step) = client.readdir("/", 30);
    assert_eq!(asked(step).1, "Bearer two", "a fresh token is used again");
    match client.listed(&mut reading, Ok(vec![node("/a", "folder", 0)])) {
        Step::Done(Ok(nodes)) => assert_eq!(nodes.len(), 1),
        other => panic!("{other:?}"),
    }
}

#[test]
fn requests_name_what_they_are_about() {
    assert_eq!(token_url(), "https://api.sirv.com/v2/token");
    assert_eq!(
        mkdir_url("/r/sub"),
        "https://api.sirv.com/v2/files/mkdir?dirname=%2Fr%2Fsub"
    );
    assert_eq!(
        upload_url("/r/a b.png"),
        "https://api.sirv.com/v2/files/upload?filename=%2Fr%2Fa%20b.png"
    );
    assert_eq!(
        download_url("/r/a.png"),
        "https://api.sirv.com/v2/files/download?filename=%2Fr%2Fa.png"
    );
}

#[test]
fn a_refused_listing_ends_with_what_was_said() {
    let mut client = Client::new(credentials("id", "secret"));
    client.keep_token("abc".to_string(), 1200, 0);
    let (mut reading, _) = client.readdir("/photos", 10);
    let refused = readdir_failed(Failure::Status(403, "no access to /photos".to_string()));
    match client.listed(&mut reading, Err(refused)) {
        Step::Done(Err(error)) => {
            assert_eq!(error.status, 403);
            assert!(error.message.contains("no access to /photos"));
        }
        other => panic!("{other:?}"),
    }
}

#[test]
fn files_are_sent_as_what_they_are() {
    assert_eq!(content_type("sub/a.JPG"), "image/jpeg");
    assert_eq!(content_type("a.png"), "image/png");
    assert_eq!(content_type("a.webp"), "image/webp");
    assert_eq!(content_type("a.avif"), "image/avif");
    assert_eq!(content_type("a.qoi"), "application/octet-stream");
    assert_eq!(content_type("notes"), "application/octet-stream");
}

#[test]
fn failures_say_where_they_happened() {
    let refused = token_failed(Failure::Status(403, "no\nmore".to_string()));
    assert_eq!(refused.text(), "Sirv 403: token request: no\nmore");
    let lost = token_failed(Failure::Transport("timed out".to_string()));
    assert_eq!(lost.text(), "Sirv 0: token request: timed out");
    let garbled = token_failed(Failure::Body("not JSON".to_string()));
    assert_eq!(garbled.text(), "Sirv 0: token body: not JSON");
    let refused = readdir_failed(Failure::Status(403, "no access to /photos".to_string()));
    assert_eq!(refused.text(), "Sirv 403: readdir: no access to /photos");
    let lost = readdir_failed(Failure::Transport("timed out".to_string()));
    assert_eq!(lost.text(), "Sirv 0: readdir: timed out");
    let garbled = readdir_failed(Failure::Body("not JSON".to_string()));
    assert_eq!(garbled.text(), "Sirv 0: readdir body: not JSON");
}

#[test]
fn a_token_is_shown_until_it_is_old() {
    let mut client = Client::new(credentials("id", "secret"));
    assert_eq!(client.authorization(0), None);
    assert_eq!(client.keep_token("abc".to_string(), 100, 1_000), "Bearer abc");
    assert_eq!(client.authorization(40_999).as_deref(), Some("Bearer abc"));
    assert_eq!(client.authorization(41_000), None);
}

#[test]
fn a_walk_lists_every_folder_below() {
    let mut walk = Walk::new("/r");
    assert_eq!(walk.next().as_deref(), Some("/r"));
    walk.listed(vec![
        node("/r/a.png", "file", 1),
        node("/r/sub", "folder", 0),
        node("/r/link", "symlink", 0),
    ]);
    assert_eq!(walk.next().as_deref(), Some("/r/sub"));
    walk.listed(vec![node("/r/sub/b.png", "file", 2)]);
    assert_eq!(walk.next(), None);
    let names: Vec<&str> = walk.files.iter().map(|file| file.filename.as_str()).collect();
    assert_eq!(names, ["/r/a.png", "/r/link", "/r/sub/b.png"]);
}
