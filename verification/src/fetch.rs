//! First-launch download of the weights and the tokenizer.
//!
//! The download itself is a program's, `curl` or `wget`; what is run, and what
//! happens before and after, is decided here. Downloads land on a `.part` file
//! and are renamed only on success, so that a truncated transfer is never taken
//! for a whole file.
use vstd::prelude::*;
use crate::text::text_list;

verus! {

/// Where the files come from.
pub const REPO: &'static str = "P2Enjoy/fastgemma-gemma-4-E2B";

/// The name of the weights file.
pub const WEIGHTS: &'static str = "g4e2b-dual.fgm";

/// The name of the tokenizer file.
pub const TOKENIZER: &'static str = "tokenizer.json";

// ---------------------------------------------------------------- paths
/// A name within a directory.
pub open spec fn within(dir: Seq<char>, name: Seq<char>) -> Seq<char> {
    if dir.len() == 0 || dir.last() == '/' {
        dir + name
    } else {
        dir + "/"@ + name
    }
}

/// A name within a directory.
pub fn join(dir: &str, name: &str) -> (r: String)
    ensures
        r@ == within(dir@, name@),
{
    let cs = crate::text::chars_of(dir);
    let mut r = dir.to_owned();
    if cs.len() > 0 && cs[cs.len() - 1] != '/' {
        r.append("/");
    }
    r.append(name);
    assert(r@ =~= within(dir@, name@));
    r
}

/// The text of a setting that may be missing.
pub open spec fn setting(s: Option<&str>) -> Option<Seq<char>> {
    match s {
        Some(s) => Some(s@),
        None => None,
    }
}

/// Where downloaded files live: `$FGM_HOME`, else `$XDG_CACHE_HOME/fastgemma`,
/// else `$HOME/.cache/fastgemma`, else `/tmp/fastgemma`.
pub open spec fn cache_of(
    fgm_home: Option<Seq<char>>,
    xdg: Option<Seq<char>>,
    home: Option<Seq<char>>,
) -> Seq<char> {
    match fgm_home {
        Some(d) => d,
        None => within(
            match xdg {
                Some(b) => b,
                None => match home {
                    Some(h) => within(h, ".cache"@),
                    None => "/tmp"@,
                },
            },
            "fastgemma"@,
        ),
    }
}

/// Where downloaded files live.
pub fn cache_dir(fgm_home: Option<&str>, xdg: Option<&str>, home: Option<&str>) -> (r: String)
    ensures
        r@ == cache_of(setting(fgm_home), setting(xdg), setting(home)),
{
    if let Some(d) = fgm_home {
        return d.to_owned();
    }
    let base = match xdg {
        Some(b) => b.to_owned(),
        None => match home {
            Some(h) => join(h, ".cache"),
            None => "/tmp".to_owned(),
        },
    };
    join(base.as_str(), "fastgemma")
}

/// Where a file is downloaded from.
pub open spec fn url_of(endpoint: Option<Seq<char>>, file: Seq<char>) -> Seq<char> {
    (match endpoint {
        Some(e) => e,
        None => "https://huggingface.co"@,
    }) + "/"@ + REPO@ + "/resolve/main/"@ + file
}

/// Where a file is downloaded from.
pub fn url(endpoint: Option<&str>, file: &str) -> (r: String)
    ensures
        r@ == url_of(setting(endpoint), file@),
{
    let mut r = match endpoint {
        Some(e) => e.to_owned(),
        None => "https://huggingface.co".to_owned(),
    };
    r.append("/");
    r.append(REPO);
    r.append("/resolve/main/");
    r.append(file);
    r
}

// ---------------------------------------------------------------- where a file is taken from
/// Where a file is taken from.
pub enum Source {
    /// the path that was given
    Given(String),
    /// this path, which has to exist; the message says that it does not
    Local { path: String, missing: String },
    /// the cache directory, downloaded where it is not there yet
    Cache,
}

/// That a file may not be downloaded and is not there.
pub open spec fn missing_text(path: Seq<char>) -> Seq<char> {
    "--no-download given and "@ + path + " is not present"@
}

/// Whether a file is taken from where it should be.
pub open spec fn source_right(
    given: Option<Seq<char>>,
    no_download: bool,
    dir: Seq<char>,
    file: Seq<char>,
    s: Source,
) -> bool {
    match given {
        Some(p) => s matches Source::Given(q) && q@ == p,
        None => if no_download {
            s matches Source::Local { path, missing } && path@ == within(dir, file) && missing@
                == missing_text(within(dir, file))
        } else {
            s is Cache
        },
    }
}

/// Where a file is taken from.
pub fn source(given: &Option<String>, no_download: bool, dir: &str, file: &str) -> (s: Source)
    ensures
        source_right(
            match *given {
                Some(g) => Some(g@),
                None => None,
            },
            no_download,
            dir@,
            file@,
            s,
        ),
{
    if let Some(p) = given {
        return Source::Given(p.clone());
    }
    if no_download {
        let path = join(dir, file);
        let mut missing = "--no-download given and ".to_owned();
        missing.append(path.as_str());
        missing.append(" is not present");
        return Source::Local { path, missing };
    }
    Source::Cache
}

// ---------------------------------------------------------------- downloading
/// What to do next.
pub enum Action {
    /// see whether the path is there
    Exists(String),
    MakeDir(String),
    /// see whether the program is there
    Have(&'static str),
    Run { program: &'static str, args: Vec<String> },
    Rename { from: String, to: String },
    /// the file is at this path
    Ready(String),
    Fail(String),
}

/// How it went.
pub enum Outcome {
    Yes,
    /// not there, or not successful; the text says how
    No(String),
    /// it could not be tried; the text says why
    Broken(String),
}

/// How far a download has come.
#[derive(Clone, Copy, Debug, PartialEq, Eq, Structural)]
pub enum Stage {
    Looking,
    Making,
    Curl,
    Wget,
    Running,
    Renaming,
    Over,
}

/// A download under way.
pub struct Fetch {
    pub dir: String,
    pub file: String,
    pub url: String,
    /// whether somebody is watching
    pub tty: bool,
    /// what a gated mirror asks for
    pub token: Option<String>,
    pub stage: Stage,
}

/// What an action asks for.
#[verifier::ext_equal]
pub enum Asked {
    Exists(Seq<char>),
    MakeDir(Seq<char>),
    Have(Seq<char>),
    Run { program: Seq<char>, args: Seq<Seq<char>> },
    Rename { from: Seq<char>, to: Seq<char> },
    Ready(Seq<char>),
    Fail(Seq<char>),
}

impl View for Action {
    type V = Asked;

    open spec fn view(&self) -> Asked {
        match *self {
            Action::Exists(p) => Asked::Exists(p@),
            Action::MakeDir(p) => Asked::MakeDir(p@),
            Action::Have(p) => Asked::Have(p@),
            Action::Run { program, args } => Asked::Run {
                program: program@,
                args: text_list(args@),
            },
            Action::Rename { from, to } => Asked::Rename { from: from@, to: to@ },
            Action::Ready(p) => Asked::Ready(p@),
            Action::Fail(m) => Asked::Fail(m@),
        }
    }
}

/// The arguments that carry a token.
pub open spec fn token_args(token: Option<String>) -> Seq<Seq<char>> {
    match token {
        Some(t) => if t@.len() > 0 {
            seq!["-H"@, "Authorization: Bearer "@ + t@]
        } else {
            Seq::empty()
        },
        None => Seq::empty(),
    }
}

impl Fetch {
    /// Where the file will be.
    pub open spec fn dest(&self) -> Seq<char> {
        within(self.dir@, self.file@)
    }

    /// Where the download lands.
    pub open spec fn part(&self) -> Seq<char> {
        within(self.dir@, self.file@ + ".part"@)
    }

    /// The arguments of `curl`.
    pub open spec fn curl_args(&self) -> Seq<Seq<char>> {
        seq![
            "-L"@,
            "--fail"@,
            "--retry"@,
            "5"@,
            "--retry-delay"@,
            "2"@,
            "-C"@,
            "-"@,
            if self.tty {
                "--progress-bar"@
            } else {
                "-sS"@
            },
            "-o"@,
            self.part(),
            self.url@,
        ] + token_args(self.token)
    }

    /// The arguments of `wget`.
    pub open spec fn wget_args(&self) -> Seq<Seq<char>> {
        seq![
            "-c"@,
            "--tries=5"@,
            if self.tty {
                "--progress=bar"@
            } else {
                "-nv"@
            },
            "-O"@,
            self.part(),
            self.url@,
        ] + token_args(self.token)
    }

    /// That there is nothing to download with.
    pub open spec fn no_tool(&self) -> Seq<char> {
        "neither curl nor wget is available. Download "@ + self.url@ + " to "@ + self.dest()
            + " by hand, or pass --model <path>."@
    }

    /// That a download has failed.
    pub open spec fn failed(&self, how: Seq<char>) -> Seq<char> {
        "download of "@ + self.file@ + " failed ("@ + how + "). The partial file is kept at "@
            + self.part() + " and will be resumed on the next run."@
    }

    /// What comes next, and how far the download has come then.
    pub open spec fn next(&self, o: Outcome) -> (Stage, Asked) {
        match (self.stage, o) {
            (Stage::Looking, Outcome::Yes) => (Stage::Over, Asked::Ready(self.dest())),
            (Stage::Looking, Outcome::No(_)) => (Stage::Making, Asked::MakeDir(self.dir@)),
            (Stage::Making, Outcome::Yes) => (Stage::Curl, Asked::Have("curl"@)),
            (Stage::Making, Outcome::No(e)) => (Stage::Over, Asked::Fail(e@)),
            (Stage::Curl, Outcome::Yes) => (
                Stage::Running,
                Asked::Run { program: "curl"@, args: self.curl_args() },
            ),
            (Stage::Curl, _) => (Stage::Wget, Asked::Have("wget"@)),
            (Stage::Wget, Outcome::Yes) => (
                Stage::Running,
                Asked::Run { program: "wget"@, args: self.wget_args() },
            ),
            (Stage::Wget, _) => (Stage::Over, Asked::Fail(self.no_tool())),
            (Stage::Running, Outcome::Yes) => (
                Stage::Renaming,
                Asked::Rename { from: self.part(), to: self.dest() },
            ),
            (Stage::Running, Outcome::No(st)) => (Stage::Over, Asked::Fail(self.failed(st@))),
            (Stage::Renaming, Outcome::Yes) => (Stage::Over, Asked::Ready(self.dest())),
            (Stage::Renaming, Outcome::No(e)) => (Stage::Over, Asked::Fail(e@)),
            (_, Outcome::Broken(e)) => (Stage::Over, Asked::Fail(e@)),
            (Stage::Over, _) => (Stage::Over, Asked::Fail(Seq::empty())),
        }
    }

    /// A download that has not begun, and the first thing to do.
    pub fn new(dir: String, file: String, url: String, tty: bool, token: Option<String>) -> (r: (
        Fetch,
        Action,
    ))
        ensures
            r.0.dir == dir,
            r.0.file == file,
            r.0.url == url,
            r.0.tty == tty,
            r.0.token == token,
            r.0.stage == Stage::Looking,
            r.1@ == Asked::Exists(r.0.dest()),
    {
        let dest = join(dir.as_str(), file.as_str());
        (Fetch { dir, file, url, tty, token, stage: Stage::Looking }, Action::Exists(dest))
    }

    fn dest_path(&self) -> (r: String)
        ensures
            r@ == self.dest(),
    {
        join(self.dir.as_str(), self.file.as_str())
    }

    fn part_path(&self) -> (r: String)
        ensures
            r@ == self.part(),
    {
        let mut name = self.file.clone();
        name.append(".part");
        join(self.dir.as_str(), name.as_str())
    }

    fn push_token(&self, args: &mut Vec<String>)
        ensures
            text_list(final(args)@) == text_list(old(args)@) + token_args(self.token),
    {
        if let Some(t) = &self.token {
            if !t.as_str().is_empty() {
                let mut h = "Authorization: Bearer ".to_owned();
                h.append(t.as_str());
                args.push("-H".to_owned());
                args.push(h);
            }
        }
        assert(text_list(args@) =~= text_list(old(args)@) + token_args(self.token));
    }

    fn curl(&self) -> (args: Vec<String>)
        ensures
            text_list(args@) == self.curl_args(),
    {
        let how = if self.tty {
            "--progress-bar"
        } else {
            "-sS"
        };
        let mut args = vec![
            "-L".to_owned(),
            "--fail".to_owned(),
            "--retry".to_owned(),
            "5".to_owned(),
            "--retry-delay".to_owned(),
            "2".to_owned(),
            "-C".to_owned(),
            "-".to_owned(),
            how.to_owned(),
            "-o".to_owned(),
            self.part_path(),
            self.url.clone(),
        ];
        let ghost before = text_list(args@);
        self.push_token(&mut args);
        assert(text_list(args@) =~= self.curl_args());
        args
    }

    fn wget(&self) -> (args: Vec<String>)
        ensures
            text_list(args@) == self.wget_args(),
    {
        let how = if self.tty {
            "--progress=bar"
        } else {
            "-nv"
        };
        let mut args = vec![
            "-c".to_owned(),
            "--tries=5".to_owned(),
            how.to_owned(),
            "-O".to_owned(),
            self.part_path(),
            self.url.clone(),
        ];
        self.push_token(&mut args);
        assert(text_list(args@) =~= self.wget_args());
        args
    }

    fn without_tool(&self) -> (m: String)
        ensures
            m@ == self.no_tool(),
    {
        let mut m = "neither curl nor wget is available. Download ".to_owned();
        m.append(self.url.as_str());
        m.append(" to ");
        m.append(self.dest_path().as_str());
        m.append(" by hand, or pass --model <path>.");
        m
    }

    fn failure(&self, how: &str) -> (m: String)
        ensures
            m@ == self.failed(how@),
    {
        let mut m = "download of ".to_owned();
        m.append(self.file.as_str());
        m.append(" failed (");
        m.append(how);
        m.append("). The partial file is kept at ");
        m.append(self.part_path().as_str());
        m.append(" and will be resumed on the next run.");
        m
    }

    /// Takes how the last thing went and gives the next one.
    pub fn step(&mut self, o: Outcome) -> (a: Action)
        requires
            old(self).stage != Stage::Over,
        ensures
            (final(self).stage, a@) == old(self).next(o),
            final(self).dir == old(self).dir,
            final(self).file == old(self).file,
            final(self).url == old(self).url,
            final(self).tty == old(self).tty,
            final(self).token == old(self).token,
    {
        match (self.stage, o) {
            (Stage::Looking, Outcome::Yes) => {
                self.stage = Stage::Over;
                Action::Ready(self.dest_path())
            },
            (Stage::Looking, Outcome::No(_)) => {
                self.stage = Stage::Making;
                Action::MakeDir(self.dir.clone())
            },
            (Stage::Making, Outcome::Yes) => {
                self.stage = Stage::Curl;
                Action::Have("curl")
            },
            (Stage::Curl, Outcome::Yes) => {
                self.stage = Stage::Running;
                Action::Run { program: "curl", args: self.curl() }
            },
            (Stage::Curl, _) => {
                self.stage = Stage::Wget;
                Action::Have("wget")
            },
            (Stage::Wget, Outcome::Yes) => {
                self.stage = Stage::Running;
                Action::Run { program: "wget", args: self.wget() }
            },
            (Stage::Wget, _) => {
                self.stage = Stage::Over;
                Action::Fail(self.without_tool())
            },
            (Stage::Running, Outcome::Yes) => {
                self.stage = Stage::Renaming;
                Action::Rename { from: self.part_path(), to: self.dest_path() }
            },
            (Stage::Running, Outcome::No(st)) => {
                self.stage = Stage::Over;
                Action::Fail(self.failure(st.as_str()))
            },
            (Stage::Renaming, Outcome::Yes) => {
                self.stage = Stage::Over;
                Action::Ready(self.dest_path())
            },
            (_, Outcome::No(e)) => {
                self.stage = Stage::Over;
                Action::Fail(e)
            },
            (_, Outcome::Broken(e)) => {
                self.stage = Stage::Over;
                Action::Fail(e)
            },
            (Stage::Over, Outcome::Yes) => Action::Fail(String::new()),
        }
    }
}

/// A file is renamed into place only after the program that wrote it has
/// succeeded, and what is renamed is what that program wrote.
pub proof fn law_only_whole_files_are_renamed(f: Fetch, o: Outcome, from: Seq<char>, to: Seq<char>)
    requires
        f.next(o).1 == (Asked::Rename { from, to }),
    ensures
        f.stage == Stage::Running,
        o is Yes,
        from == f.part(),
        to == f.dest(),
{
}

/// The programs write to the partial file.
pub proof fn law_programs_write_the_partial_file(
    f: Fetch,
    o: Outcome,
    program: Seq<char>,
    args: Seq<Seq<char>>,
)
    requires
        f.next(o).1 == (Asked::Run { program, args }),
    ensures
        program == "curl"@ ==> args[9] == "-o"@ && args[10] == f.part(),
        program == "wget"@ ==> args[3] == "-O"@ && args[4] == f.part(),
        program == "curl"@ || program == "wget"@,
{
    reveal_strlit("curl");
    reveal_strlit("wget");
    assert("curl"@[0] != "wget"@[0]);
}

/// The partial file lies beside the file and is another one.
pub proof fn law_the_partial_file_is_another(f: Fetch)
    ensures
        f.part() == f.dest() + ".part"@,
        f.part() != f.dest(),
{
    reveal_strlit(".part");
    assert(f.part() =~= f.dest() + ".part"@);
    assert(f.part().len() == f.dest().len() + 5);
}

/// A file is ready at its own path, and only if it was there from the start or has
/// been renamed into place; one that was there is not downloaded again.
pub proof fn law_ready_files_are_in_place(f: Fetch, o: Outcome, path: Seq<char>)
    ensures
        f.next(o).1 == Asked::Ready(path) ==> {
            &&& path == f.dest()
            &&& o is Yes
            &&& f.stage == Stage::Looking || f.stage == Stage::Renaming
        },
        f.stage == Stage::Looking && o is Yes ==> f.next(o).1 == Asked::Ready(f.dest()),
        f.stage == Stage::Renaming && o is Yes ==> f.next(o).1 == Asked::Ready(f.dest()),
{
}

/// What is downloaded is what was asked for: whichever program there is resumes the
/// partial file, writes to it, reads from the address, and carries the token where
/// there is one.
pub proof fn law_downloads_resume(f: Fetch, o: Outcome, program: Seq<char>, args: Seq<Seq<char>>)
    requires
        f.next(o).1 == (Asked::Run { program, args }),
    ensures
        o is Yes,
        program == "curl"@ ==> f.stage == Stage::Curl && args.contains("-C"@) && args.contains(
            "--fail"@,
        ),
        program == "wget"@ ==> f.stage == Stage::Wget && args.contains("-c"@),
        args.contains(f.part()),
        args.contains(f.url@),
        f.token matches Some(t) ==> t@.len() > 0 ==> args.last() == "Authorization: Bearer "@ + t@
            && args[args.len() - 2] == "-H"@,
        (f.token matches Some(t) ==> t@.len() == 0) ==> args.last() == f.url@,
{
    reveal_strlit("curl");
    reveal_strlit("wget");
    assert("curl"@[0] != "wget"@[0]);
    if program == "curl"@ {
        assert(args[1] == "--fail"@ && args[6] == "-C"@);
        assert(args[10] == f.part() && args[11] == f.url@);
    } else {
        assert(args[0] == "-c"@);
        assert(args[4] == f.part() && args[5] == f.url@);
    }
}

/// `wget` is asked for only where `curl` is not there, and a download goes on to an
/// end: whatever the outcomes, it is over after at most six of them.
pub proof fn law_downloads_end(f: Fetch, o: Outcome)
    requires
        f.stage != Stage::Over,
    ensures
        f.next(o).1 == Asked::Have("wget"@) ==> f.stage == Stage::Curl && !(o is Yes),
        rest_of(f.next(o).0) < rest_of(f.stage),
        f.next(o).0 == Stage::Over <==> f.next(o).1 is Ready || f.next(o).1 is Fail,
        o is Broken && f.stage != Stage::Curl && f.stage != Stage::Wget ==> f.next(o).1 is Fail,
{
    reveal_strlit("curl");
    reveal_strlit("wget");
    assert("curl"@[0] != "wget"@[0]);
}

/// How many outcomes a download still waits for, at most.
pub open spec fn rest_of(s: Stage) -> nat {
    match s {
        Stage::Looking => 6,
        Stage::Making => 5,
        Stage::Curl => 4,
        Stage::Wget => 3,
        Stage::Running => 2,
        Stage::Renaming => 1,
        Stage::Over => 0,
    }
}

/// A path that was given is taken whatever else holds; with `--no-download` nothing is
/// downloaded.
pub proof fn law_no_download_is_kept(
    given: Option<Seq<char>>,
    no_download: bool,
    dir: Seq<char>,
    file: Seq<char>,
    s: Source,
)
    requires
        source_right(given, no_download, dir, file, s),
    ensures
        s is Given <==> given is Some,
        no_download ==> !(s is Cache),
        s is Local ==> no_download,
        s matches Source::Given(p) ==> given == Some(p@),
{
}

/// The cache is the directory that is named first, and it lies under whatever is
/// named: `$FGM_HOME` is taken as it is, the others get a directory of their own.
pub proof fn law_the_nearest_home_wins(
    a: Seq<char>,
    b: Seq<char>,
    c: Seq<char>,
    xdg: Option<Seq<char>>,
    home: Option<Seq<char>>,
)
    ensures
        cache_of(Some(a), xdg, home) == a,
        b.is_prefix_of(cache_of(None, Some(b), home)),
        cache_of(None, Some(b), home) == cache_of(None, Some(b), None),
        cache_of(None, None, Some(c)) == cache_of(None, Some(within(c, ".cache"@)), None),
        cache_of(None, None, None) == cache_of(None, Some("/tmp"@), None),
{
    let w = within(b, "fastgemma"@);
    assert(b =~= w.subrange(0, b.len() as int));
}

/// A file comes from the place that was named, under its own name.
pub proof fn law_addresses_keep_place_and_name(endpoint: Seq<char>, file: Seq<char>)
    ensures
        endpoint.is_prefix_of(url_of(Some(endpoint), file)),
        url_of(Some(endpoint), file).skip(url_of(Some(endpoint), file).len() - file.len()) == file,
        url_of(None, file) == url_of(Some("https://huggingface.co"@), file),
{
    let u = url_of(Some(endpoint), file);
    assert(endpoint =~= u.subrange(0, endpoint.len() as int));
    assert(u.skip(u.len() - file.len()) =~= file);
}

/// A name lies directly within its directory, whether the directory is written with a
/// slash at its end or without.
pub proof fn law_a_slash_makes_no_difference(dir: Seq<char>, name: Seq<char>)
    requires
        dir.len() > 0,
        dir.last() != '/',
    ensures
        within(dir, name) == within(dir + "/"@, name),
        within(dir, name) == dir + "/"@ + name,
        within(Seq::empty(), name) == name,
{
    reveal_strlit("/");
    assert((dir + "/"@).last() == '/');
    assert(Seq::<char>::empty() + name =~= name);
}

} // verus!
