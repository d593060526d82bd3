use imageguide::scan::{Entry, ImageFormat};
use imageguide::sirv::Node;
use imageguide::sync::{
    form_credentials, key_files, local_path, remote_path, save_status, sirv_counts, sirv_pull_plan,
    sirv_push_plan, JobKind, Next, Remote,
};

fn entry(path: &str, bytes: u64) -> Entry {
    Entry {
        path: path.to_string(),
        format: ImageFormat::Png,
        width: 1,
        height: 1,
        bytes,
    }
}

fn file(filename: &str, size: u64) -> Node {
    Node {
        filename: filename.to_string(),
        kind: "file".to_string(),
        size,
    }
}

fn entries() -> Vec<Entry> {
    vec![
        entry("/p/same.png", 10),
        entry("/p/changed.png", 10),
        entry("/p/sub/deep/new.png", 10),
        entry("/elsewhere/x.png", 10),
    ]
}

fn nodes() -> Vec<Node> {
    vec![
        file("/r/same.png", 10),
        file("/r/changed.png", 11),
        file("/r/only.png", 5),
        file("/r/sub/too.png", 5),
        file("/r/../escape.png", 5),
        file("/other/y.png", 5),
    ]
}

#[test]
fn counts_and_plans_agree() {
    let files = key_files("/r/", &nodes());
    assert_eq!(sirv_counts("/p", &entries(), Some(&files)), Some((1, 1, 3)));
    assert_eq!(sirv_counts("/p", &entries(), None), None);
    let files = key_files("/r/", &nodes());
    let push = sirv_push_plan("/p", &entries(), &files);
    assert_eq!(push.len(), 1);
    assert_eq!((push[0].key.as_str(), push[0].index), ("sub/deep/new.png", 2));
    let pull = sirv_pull_plan("/p", &entries(), &Vec::new(), "/r", &files);
    assert_eq!(pull, ["only.png", "sub/too.png"], "a key that climbs out stays away");
}

fn paired() -> Remote {
    let mut remote = Remote::none();
    let request = remote.open_browser(true, None).unwrap();
    remote.land_listing(request.generation, Ok(Vec::new()));
    remote.descend("r").unwrap();
    assert_eq!(remote.browser.as_ref().unwrap().path, "/r");
    let generation = remote.browser.as_ref().unwrap().generation;
    remote.land_listing(generation, Ok(Vec::new()));
    assert_eq!(remote.pair().as_deref(), Some("/r"));
    remote.land_walk(remote.pairing_generation, Ok(nodes()), "/p", &entries());
    remote
}

#[test]
fn browsing_goes_down_and_up() {
    let mut remote = Remote::none();
    let first = remote.open_browser(true, None).unwrap();
    assert_eq!((first.path.as_str(), first.generation), ("/", 1));
    assert!(remote.ascend().is_none(), "there is nothing above");
    let second = remote.descend("a").unwrap();
    assert_eq!(second.path, "/a");
    remote.land_listing(first.generation, Err("late".to_string()));
    assert!(remote.browser.as_ref().unwrap().nodes.is_none(), "a stale listing");
    assert_eq!(remote.descend("b").unwrap().path, "/a/b");
    assert_eq!(remote.ascend().unwrap().path, "/a");
    assert_eq!(remote.ascend().unwrap().path, "/");
    remote.close_browser();
    assert!(remote.browser.is_none());
    assert!(remote.descend("x").is_none());
}

#[test]
fn a_transfer_runs_until_it_is_done_or_unwanted() {
    let mut remote = paired();
    assert_eq!(remote.counts, Some((1, 1, 3)));
    let push = remote.start_push("/p", &entries()).unwrap();
    assert_eq!(push.dir, "/r");
    assert_eq!(push.folders, ["sub", "sub/deep"]);
    assert!(remote.busy());
    assert!(remote.start_pull("/p", &entries(), &Vec::new()).is_none(), "one at a time");
    let mut transfer = push.begin();
    assert_eq!(remote.next(&transfer), Next::Move(0));
    transfer.moved("sub/deep/new.png", Err("Sirv 500: upload: no".to_string()));
    remote.progressed(&transfer);
    assert_eq!(remote.next(&transfer), Next::Finish);
    remote.finished(&transfer);
    let job = remote.job.as_ref().unwrap();
    assert_eq!((job.kind, job.done, job.total, job.finished), (JobKind::Push, 1, 1, true));
    assert_eq!(job.failures, ["sub/deep/new.png: Sirv 500: upload: no"]);

    let pull = remote.start_pull("/p", &entries(), &Vec::new()).unwrap();
    assert_eq!(pull.keys, ["only.png", "sub/too.png"]);
    let mut second = pull.begin();
    second.moved("only.png", Ok(()));
    assert_eq!(remote.next(&second), Next::Move(1));
    remote.cancel_transfer();
    assert!(remote.superseded(pull.generation));
    assert_eq!(remote.next(&second), Next::Stop, "nothing new starts");
    remote.progressed(&transfer);
    let job = remote.job.as_ref().unwrap();
    assert!(job.finished);
    assert_eq!(job.done, 0, "another transfer says nothing of this one");
    assert_eq!(job.failures, ["stopped"]);
    remote.unpair();
    assert!(remote.pairing.is_none() && remote.counts.is_none());
    assert!(remote.start_push("/p", &entries()).is_none());
}

#[test]
fn a_pull_leaves_files_alone_that_are_not_listed() {
    let mut listed = nodes();
    listed.push(file("/r/shot.nef", 5));
    listed.push(file("/r/optimized/same.webp", 5));
    listed.push(file("/r/sub//odd.png", 5));
    let files = key_files("/r", &listed);
    let present: Vec<String> = [
        "/p/same.png",
        "/p/shot.nef",
        "/p/optimized/same.webp",
        "/p/sub/odd.png",
        "/p/only.png",
        "/q/sub/too.png",
    ]
    .iter()
    .map(|path| path.to_string())
    .collect();
    let pull = sirv_pull_plan("/p", &entries(), &present, "/r", &files);
    assert_eq!(pull, ["sub/too.png"]);
    for key in &pull {
        assert!(!present.contains(&local_path("/p", key)));
    }
}

#[test]
fn failures_keep_names() {
    let mut remote = paired();
    let mut pull = remote.start_pull("/p", &entries(), &Vec::new()).unwrap().begin();
    pull.moved("only.png", Err("Sirv 404: download: gone".to_string()));
    pull.moved("sub/too.png", Ok(()));
    assert_eq!(pull.failures, ["only.png"], "a pull names the file and no more");
    remote.finished(&pull);
    let mut push = remote.start_push("/p", &entries()).unwrap().begin();
    push.folder_failed("sub");
    assert_eq!(push.failures, ["could not create folder sub"]);
    assert_eq!(remote.next(&push), Next::Move(0), "the files are tried all the same");
}

#[test]
fn a_pulled_file_lands_under_its_key() {
    assert_eq!(remote_path("/r", "sub/too.png"), "/r/sub/too.png");
    let local = local_path("/p/", "sub/too.png");
    assert_eq!(local, "/p/sub/too.png");
    assert_eq!(
        imageguide::sirv::relative_key("/p", &local).as_deref(),
        Some("sub/too.png")
    );
}

#[test]
fn a_failed_walk_says_why() {
    let mut remote = paired();
    remote.land_walk(
        remote.pairing_generation,
        Err("Sirv 500: readdir".to_string()),
        "/p",
        &entries(),
    );
    assert!(remote.start_pull("/p", &entries(), &Vec::new()).is_none());
    assert!(matches!(
        remote.pairing.as_ref().unwrap().files,
        imageguide::sync::Listing::Failed(_)
    ));
}

#[test]
fn the_form_needs_both_fields() {
    let saved = form_credentials("  id ", "\tsecret\n").unwrap();
    assert_eq!((saved.client_id.as_str(), saved.client_secret.as_str()), ("id", "secret"));
    assert_eq!(
        form_credentials("id", "  ").err().as_deref(),
        Some("Both fields are required.")
    );
    assert_eq!(save_status(Ok(())), (true, "Saved.".to_string()));
    assert_eq!(
        save_status(Err("read-only".to_string())),
        (false, "Could not save: read-only".to_string())
    );
}

#[test]
fn a_walk_of_a_replaced_pairing_lands_nowhere() {
    let mut remote = paired();
    let first = remote.pairing_generation;
    let request = remote.open_browser(true, None).unwrap();
    remote.land_listing(request.generation, Ok(Vec::new()));
    remote.descend("sub").unwrap();
    assert_eq!(remote.pair().as_deref(), Some("/r/sub"));
    assert_ne!(remote.pairing_generation, first);
    remote.land_walk(first, Ok(nodes()), "/p", &entries());
    assert!(remote.counts.is_none());
    assert!(matches!(
        remote.pairing.as_ref().unwrap().files,
        imageguide::sync::Listing::Walking
    ));
    remote.land_walk(remote.pairing_generation, Ok(nodes()), "/p", &entries());
    assert!(remote.counts.is_some());
}
