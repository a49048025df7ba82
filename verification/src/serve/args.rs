//! The command line of the server.
use vstd::prelude::*;
use crate::text::{
    decimal, decimal_text, lemma_decimal, parse_usize, same_text, unsigned_value,
};

verus! {

/// What the server is asked to do.
pub struct Args {
    pub model: Option<String>,
    pub tokenizer: Option<String>,
    pub addr: String,
    pub threads: usize,
    pub ctx: usize,
    pub batch: usize,
    pub no_download: bool,
}

/// What the arguments hold.
#[verifier::ext_equal]
pub struct Settings {
    pub model: Option<Seq<char>>,
    pub tokenizer: Option<Seq<char>>,
    pub addr: Seq<char>,
    pub threads: usize,
    pub ctx: usize,
    pub batch: usize,
    pub no_download: bool,
}

/// The text of a value that may be missing.
pub open spec fn maybe_text(s: Option<String>) -> Option<Seq<char>> {
    match s {
        Some(s) => Some(s@),
        None => None,
    }
}

impl View for Args {
    type V = Settings;

    open spec fn view(&self) -> Settings {
        Settings {
            model: maybe_text(self.model),
            tokenizer: maybe_text(self.tokenizer),
            addr: self.addr@,
            threads: self.threads,
            ctx: self.ctx,
            batch: self.batch,
            no_download: self.no_download,
        }
    }
}

/// What holds where no argument says otherwise.
pub open spec fn defaults(threads: usize) -> Settings {
    Settings {
        model: None,
        tokenizer: None,
        addr: "127.0.0.1:8080"@,
        threads,
        ctx: 8192,
        batch: 8,
        no_download: false,
    }
}

/// A number that fits an address.
pub open spec fn address_value(s: Seq<char>) -> Option<usize> {
    match unsigned_value(s) {
        Some(n) => if n <= usize::MAX {
            Some(n as usize)
        } else {
            None
        },
        None => None,
    }
}

/// Whether an option takes a value.
pub open spec fn takes_value(f: Seq<char>) -> bool {
    ||| f == "--model"@
    ||| f == "-m"@
    ||| f == "--tokenizer"@
    ||| f == "--addr"@
    ||| f == "--threads"@
    ||| f == "-t"@
    ||| f == "--ctx"@
    ||| f == "--batch"@
    ||| f == "-b"@
}

/// The settings after an option with a value.
pub open spec fn with_value(a: Settings, f: Seq<char>, v: Seq<char>) -> Option<Settings> {
    if f == "--model"@ || f == "-m"@ {
        Some(Settings { model: Some(v), ..a })
    } else if f == "--tokenizer"@ {
        Some(Settings { tokenizer: Some(v), ..a })
    } else if f == "--addr"@ {
        Some(Settings { addr: v, ..a })
    } else if f == "--threads"@ || f == "-t"@ {
        match address_value(v) {
            Some(n) => Some(Settings { threads: n, ..a }),
            None => None,
        }
    } else if f == "--ctx"@ {
        match address_value(v) {
            Some(n) => Some(Settings { ctx: n, ..a }),
            None => None,
        }
    } else {
        match address_value(v) {
            Some(n) => Some(Settings { batch: n, ..a }),
            None => None,
        }
    }
}

/// The settings after the arguments from `i` on. Nothing, if one of them is not
/// understood or asks for help.
pub open spec fn settings_from(a: Settings, argv: Seq<String>, i: int) -> Option<Settings>
    decreases argv.len() - i,
{
    if i >= argv.len() {
        Some(a)
    } else {
        let f = argv[i]@;
        if takes_value(f) {
            if i + 1 < argv.len() {
                match with_value(a, f, argv[i + 1]@) {
                    Some(b) => settings_from(b, argv, i + 2),
                    None => None,
                }
            } else {
                None
            }
        } else if f == "--no-download"@ {
            settings_from(Settings { no_download: true, ..a }, argv, i + 1)
        } else {
            None
        }
    }
}

/// Every option sets its own setting and no other, under its long name and under its
/// short one, and what was set before gives way to it; a number is read as it is
/// written.
pub proof fn law_each_option_sets_its_own(a: Settings, argv: Seq<String>, i: int, n: usize)
    requires
        0 <= i,
        i + 1 < argv.len(),
    ensures
        ({
            let f = argv[i]@;
            let v = argv[i + 1]@;
            let end = settings_from(a, argv, i);
            &&& f == "--model"@ || f == "-m"@ ==> end == settings_from(
                Settings { model: Some(v), ..a },
                argv,
                i + 2,
            )
            &&& f == "--tokenizer"@ ==> end == settings_from(
                Settings { tokenizer: Some(v), ..a },
                argv,
                i + 2,
            )
            &&& f == "--addr"@ ==> end == settings_from(Settings { addr: v, ..a }, argv, i + 2)
            &&& f == "--no-download"@ ==> end == settings_from(
                Settings { no_download: true, ..a },
                argv,
                i + 1,
            )
            &&& v == decimal(n as nat) ==> {
                &&& f == "--threads"@ || f == "-t"@ ==> end == settings_from(
                    Settings { threads: n, ..a },
                    argv,
                    i + 2,
                )
                &&& f == "--ctx"@ ==> end == settings_from(Settings { ctx: n, ..a }, argv, i + 2)
                &&& f == "--batch"@ || f == "-b"@ ==> end == settings_from(
                    Settings { batch: n, ..a },
                    argv,
                    i + 2,
                )
            }
        }),
{
    reveal_strlit("--model");
    reveal_strlit("-m");
    reveal_strlit("--tokenizer");
    reveal_strlit("--addr");
    reveal_strlit("--threads");
    reveal_strlit("-t");
    reveal_strlit("--ctx");
    reveal_strlit("--batch");
    reveal_strlit("-b");
    reveal_strlit("--no-download");
    lemma_decimal(n as nat);
    assert(decimal(n as nat)[0] != '+');
    assert("--model"@[2] == 'm' && "--tokenizer"@[2] == 't' && "--addr"@[2] == 'a' && "--threads"@[3]
        == 'h' && "--ctx"@[2] == 'c' && "--batch"@[2] == 'b' && "--no-download"@[2] == 'n');
    assert("--tokenizer"@[3] == 'o' && "--threads"@[2] == 't');
    assert("-m"@[1] == 'm' && "-t"@[1] == 't' && "-b"@[1] == 'b');
    assert("--model"@[1] == '-' && "--tokenizer"@[1] == '-' && "--addr"@[1] == '-' && "--threads"@[1]
        == '-' && "--ctx"@[1] == '-' && "--batch"@[1] == '-' && "--no-download"@[1] == '-');
}

/// What the server is not told stays as it is: no arguments leave the settings, an
/// option without its value is not understood, nor is a number that is none.
pub proof fn law_nothing_is_guessed(a: Settings, argv: Seq<String>, i: int)
    requires
        0 <= i <= argv.len(),
    ensures
        i == argv.len() ==> settings_from(a, argv, i) == Some(a),
        i + 1 == argv.len() && argv[i]@ != "--no-download"@ ==> settings_from(a, argv, i) is None,
        i + 1 < argv.len() && unsigned_value(argv[i + 1]@) is None && (argv[i]@ == "--ctx"@
            || argv[i]@ == "--threads"@ || argv[i]@ == "-t"@ || argv[i]@ == "--batch"@ || argv[i]@
            == "-b"@) ==> settings_from(a, argv, i) is None,
{
    reveal_strlit("--model");
    reveal_strlit("-m");
    reveal_strlit("--tokenizer");
    reveal_strlit("--addr");
    reveal_strlit("--threads");
    reveal_strlit("-t");
    reveal_strlit("--ctx");
    reveal_strlit("--batch");
    reveal_strlit("-b");
    assert("--model"@[2] == 'm' && "--tokenizer"@[2] == 't' && "--addr"@[2] == 'a' && "--threads"@[3]
        == 'h' && "--ctx"@[2] == 'c' && "--batch"@[2] == 'b');
    assert("--tokenizer"@[3] == 'o' && "--threads"@[2] == 't');
    assert("-m"@[1] == 'm' && "-t"@[1] == 't' && "-b"@[1] == 'b');
    assert("--model"@[1] == '-' && "--tokenizer"@[1] == '-' && "--addr"@[1] == '-' && "--threads"@[1]
        == '-' && "--ctx"@[1] == '-' && "--batch"@[1] == '-');
}

fn value_taken(f: &str) -> (r: bool)
    ensures
        r == takes_value(f@),
{
    same_text(f, "--model") || same_text(f, "-m") || same_text(f, "--tokenizer") || same_text(
        f,
        "--addr",
    ) || same_text(f, "--threads") || same_text(f, "-t") || same_text(f, "--ctx") || same_text(
        f,
        "--batch",
    ) || same_text(f, "-b")
}

fn set_value(a: Args, f: &str, v: &String) -> (r: Option<Args>)
    requires
        takes_value(f@),
    ensures
        match r {
            Some(b) => with_value(a@, f@, v@) == Some(b@),
            None => with_value(a@, f@, v@) is None,
        },
{
    let mut a = a;
    if same_text(f, "--model") || same_text(f, "-m") {
        a.model = Some(v.clone());
        return Some(a);
    }
    if same_text(f, "--tokenizer") {
        a.tokenizer = Some(v.clone());
        return Some(a);
    }
    if same_text(f, "--addr") {
        a.addr = v.clone();
        return Some(a);
    }
    match parse_usize(v.as_str()) {
        Some(n) => {
            if same_text(f, "--threads") || same_text(f, "-t") {
                a.threads = n;
            } else if same_text(f, "--ctx") {
                a.ctx = n;
            } else {
                a.batch = n;
            }
            Some(a)
        },
        None => None,
    }
}

/// Reads the arguments, without the program's name. `threads` is how many threads
/// there are by default. `None` means that the usage is to be shown.
pub fn parse_args(argv: &[String], threads: usize) -> (r: Option<Args>)
    ensures
        match r {
            Some(a) => settings_from(defaults(threads), argv@, 0) == Some(a@),
            None => settings_from(defaults(threads), argv@, 0) is None,
        },
{
    let mut a = Args {
        model: None,
        tokenizer: None,
        addr: "127.0.0.1:8080".to_owned(),
        threads,
        ctx: 8192,
        batch: 8,
        no_download: false,
    };
    let mut i: usize = 0;
    while i < argv.len()
        invariant
            i <= argv@.len(),
            settings_from(defaults(threads), argv@, 0) == settings_from(a@, argv@, i as int),
        decreases argv@.len() - i,
    {
        let f = argv[i].as_str();
        if value_taken(f) {
            if argv.len() - i < 2 {
                return None;
            }
            match set_value(a, f, &argv[i + 1]) {
                Some(b) => {
                    a = b;
                },
                None => {
                    return None;
                },
            }
            i += 2;
        } else if same_text(f, "--no-download") {
            let ghost a0 = a@;
            a.no_download = true;
            assert(a@ =~= Settings { no_download: true, ..a0 });
            i += 1;
        } else {
            return None;
        }
    }
    Some(a)
}

/// That a tokenizer has fewer ids than the model asks for.
pub open spec fn mismatch(entries: nat, expected: nat) -> Option<Seq<char>> {
    if entries < expected {
        Some(
            "tokenizer has "@ + decimal(entries) + " entries but the model expects "@ + decimal(
                expected,
            ) + " — these files are not from the same checkpoint"@,
        )
    } else {
        None
    }
}

/// A tokenizer serves every model that asks for no more ids than it has: with each id
/// more it serves the same ones and no fewer.
pub proof fn law_more_ids_do_no_harm(entries: nat, expected: nat)
    ensures
        mismatch(expected, expected) is None,
        expected > 0 ==> mismatch((expected - 1) as nat, expected) is Some,
        mismatch(entries, expected) is None ==> mismatch(entries + 1, expected) is None,
        mismatch(entries, expected) is None <==> expected <= entries,
{
}

/// What is wrong with a tokenizer of `entries` ids beside a model of `expected`
/// ones: it may have more, and not fewer.
pub fn vocabulary_flaw(entries: usize, expected: usize) -> (r: Option<String>)
    ensures
        match r {
            Some(m) => mismatch(entries as nat, expected as nat) == Some(m@),
            None => mismatch(entries as nat, expected as nat) is None,
        },
{
    if entries >= expected {
        return None;
    }
    let mut m = "tokenizer has ".to_owned();
    m.append(decimal_text(entries as u64).as_str());
    m.append(" entries but the model expects ");
    m.append(decimal_text(expected as u64).as_str());
    m.append(" — these files are not from the same checkpoint");
    Some(m)
}

} // verus!
