//! First-launch downloads.

use fastgemma::fetch::{
    cache_dir, join, source, url, Action, Fetch, Outcome, Source, Stage, TOKENIZER, WEIGHTS,
};

fn begin(tty: bool, token: Option<&str>) -> (Fetch, Action) {
    Fetch::new(
        "/d".to_string(),
        "f".to_string(),
        "https://h/f".to_string(),
        tty,
        token.map(str::to_string),
    )
}

fn no() -> Outcome {
    Outcome::No("exit status: 22".to_string())
}

#[test]
fn files_live_in_the_cache() {
    assert_eq!(cache_dir(Some("/x"), Some("/y"), Some("/z")), "/x");
    assert_eq!(cache_dir(None, Some("/y"), Some("/z")), "/y/fastgemma");
    assert_eq!(cache_dir(None, None, Some("/z")), "/z/.cache/fastgemma");
    assert_eq!(cache_dir(None, None, None), "/tmp/fastgemma");
    assert_eq!(join("/x", "f"), "/x/f");
}

#[test]
fn addresses_name_the_repository() {
    assert_eq!(
        url(None, WEIGHTS),
        "https://huggingface.co/P2Enjoy/fastgemma-gemma-4-E2B/resolve/main/g4e2b-dual.fgm"
    );
    assert_eq!(
        url(Some("http://mirror"), TOKENIZER),
        "http://mirror/P2Enjoy/fastgemma-gemma-4-E2B/resolve/main/tokenizer.json"
    );
}

#[test]
fn a_given_path_is_taken() {
    assert!(matches!(source(&Some("m".to_string()), true, "/d", "f"), Source::Given(p) if p == "m"));
    assert!(matches!(source(&None, false, "/d", "f"), Source::Cache));
    match source(&None, true, "/d", "f") {
        Source::Local { path, missing } => {
            assert_eq!(path, "/d/f");
            assert_eq!(missing, "--no-download given and /d/f is not present");
        }
        _ => panic!("a download"),
    }
}

#[test]
fn a_file_that_is_there_is_ready() {
    let (mut f, a) = begin(false, None);
    assert!(matches!(a, Action::Exists(p) if p == "/d/f"));
    assert!(matches!(f.step(Outcome::Yes), Action::Ready(p) if p == "/d/f"));
    assert!(f.stage == Stage::Over);
}

#[test]
fn curl_writes_the_partial_file() {
    let (mut f, _) = begin(false, Some("tok"));
    assert!(matches!(f.step(no()), Action::MakeDir(d) if d == "/d"));
    assert!(matches!(f.step(Outcome::Yes), Action::Have("curl")));
    match f.step(Outcome::Yes) {
        Action::Run { program, args } => {
            assert_eq!(program, "curl");
            assert_eq!(
                args,
                [
                    "-L", "--fail", "--retry", "5", "--retry-delay", "2", "-C", "-", "-sS", "-o",
                    "/d/f.part", "https://h/f", "-H", "Authorization: Bearer tok",
                ]
            );
        }
        _ => panic!("nothing runs"),
    }
    match f.step(Outcome::Yes) {
        Action::Rename { from, to } => {
            assert_eq!((from.as_str(), to.as_str()), ("/d/f.part", "/d/f"));
        }
        _ => panic!("not renamed"),
    }
    assert!(matches!(f.step(Outcome::Yes), Action::Ready(p) if p == "/d/f"));
}

#[test]
fn wget_stands_in_for_curl() {
    let (mut f, _) = begin(true, Some(""));
    f.step(no());
    f.step(Outcome::Yes);
    assert!(matches!(f.step(no()), Action::Have("wget")));
    match f.step(Outcome::Yes) {
        Action::Run { program, args } => {
            assert_eq!(program, "wget");
            assert_eq!(
                args,
                ["-c", "--tries=5", "--progress=bar", "-O", "/d/f.part", "https://h/f"]
            );
        }
        _ => panic!("nothing runs"),
    }
}

#[test]
fn without_either_the_address_is_told() {
    let (mut f, _) = begin(true, None);
    f.step(no());
    f.step(Outcome::Yes);
    f.step(no());
    match f.step(no()) {
        Action::Fail(m) => assert_eq!(
            m,
            "neither curl nor wget is available. Download https://h/f to /d/f by hand, \
             or pass --model <path>."
        ),
        _ => panic!("no failure"),
    }
}

/// A download that failed is not renamed; what there is of it is kept.
#[test]
fn failed_downloads_are_not_renamed() {
    let (mut f, _) = begin(true, None);
    f.step(no());
    f.step(Outcome::Yes);
    f.step(Outcome::Yes);
    match f.step(no()) {
        Action::Fail(m) => assert_eq!(
            m,
            "download of f failed (exit status: 22). The partial file is kept at /d/f.part \
             and will be resumed on the next run."
        ),
        _ => panic!("no failure"),
    }
    let (mut f, _) = begin(true, None);
    f.step(no());
    match f.step(Outcome::Broken("read-only".to_string())) {
        Action::Fail(m) => assert_eq!(m, "read-only"),
        _ => panic!("no failure"),
    }
}
