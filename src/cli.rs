//! Command-line arguments: the subcommand and `--key value` options.
use vstd::prelude::*;

verus! {

/// The subcommands of the command-line program.
#[derive(Debug, Clone, Copy, PartialEq, Eq)]
pub enum SubCommand {
    Train,
    Embed,
    Similar,
    Analogy,
    BpeTrain,
    BpeEncode,
    Info,
    Help,
}

/// The arguments of one run: the subcommand and what follows it.
#[derive(Debug)]
pub struct Args {
    pub cmd: SubCommand,
    pub args: Vec<String>,
}

/// Whether two texts are equal.
fn same_text(a: &str, b: &str) -> (r: bool)
    ensures
        r == (a@ == b@),
{
    a.to_owned() == b.to_owned()
}

/// The subcommand named `name`; help for a missing or unknown name.
pub open spec fn command_spec(name: Option<Seq<char>>) -> SubCommand {
    match name {
        None => SubCommand::Help,
        Some(n) => if n == "train"@ {
            SubCommand::Train
        } else if n == "embed"@ {
            SubCommand::Embed
        } else if n == "similar"@ {
            SubCommand::Similar
        } else if n == "analogy"@ {
            SubCommand::Analogy
        } else if n == "bpe-train"@ {
            SubCommand::BpeTrain
        } else if n == "bpe-encode"@ {
            SubCommand::BpeEncode
        } else if n == "info"@ {
            SubCommand::Info
        } else {
            SubCommand::Help
        },
    }
}

/// The subcommand that a name selects; a missing or unknown name selects help.
pub fn command_of(name: Option<&str>) -> (r: SubCommand)
    ensures
        r == command_spec(match name {
            Some(n) => Some(n@),
            None => None,
        }),
{
    match name {
        None => SubCommand::Help,
        Some(n) => {
            if same_text(n, "train") {
                SubCommand::Train
            } else if same_text(n, "embed") {
                SubCommand::Embed
            } else if same_text(n, "similar") {
                SubCommand::Similar
            } else if same_text(n, "analogy") {
                SubCommand::Analogy
            } else if same_text(n, "bpe-train") {
                SubCommand::BpeTrain
            } else if same_text(n, "bpe-encode") {
                SubCommand::BpeEncode
            } else if same_text(n, "info") {
                SubCommand::Info
            } else {
                SubCommand::Help
            }
        },
    }
}

/// `key` stands at position `i` of `args` and nowhere before it.
pub open spec fn first_at(args: Seq<String>, key: Seq<char>, i: int) -> bool {
    &&& 0 <= i < args.len()
    &&& args[i]@ == key
    &&& forall|j: int| 0 <= j < i ==> (#[trigger] args[j])@ != key
}

/// The value after the first occurrence of `key`, if there is one.
pub fn get_arg(args: &[String], key: &str) -> (r: Option<String>)
    ensures
        match r {
            Some(v) => exists|i: int| #[trigger] first_at(args@, key@, i) && i + 1 < args@.len() && v@ == args@[i + 1]@,
            None => forall|i: int| #[trigger] first_at(args@, key@, i) ==> i + 1 == args@.len(),
        },
{
    let k = key.to_owned();
    let mut i: usize = 0;
    while i < args.len()
        invariant
            i <= args@.len(),
            k@ == key@,
            forall|j: int| 0 <= j < i ==> (#[trigger] args@[j])@ != key@,
        decreases args@.len() - i,
    {
        if args[i] == k {
            assert(first_at(args@, key@, i as int));
            if i + 1 < args.len() {
                return Some(args[i + 1].clone());
            } else {
                return None;
            }
        }
        i += 1;
    }
    assert forall|i: int| #[trigger] first_at(args@, key@, i) implies i + 1 == args@.len() by {
        assert(args@[i]@ != key@);
    }
    None
}

/// Whether `flag` is one of the arguments.
pub fn has_flag(args: &[String], flag: &str) -> (r: bool)
    ensures
        r == exists|i: int| 0 <= i < args@.len() && (#[trigger] args@[i])@ == flag@,
{
    let f = flag.to_owned();
    let mut i: usize = 0;
    while i < args.len()
        invariant
            i <= args@.len(),
            f@ == flag@,
            forall|j: int| 0 <= j < i ==> (#[trigger] args@[j])@ != flag@,
        decreases args@.len() - i,
    {
        if args[i] == f {
            return true;
        }
        i += 1;
    }
    false
}

} // verus!
