//! The base command and its startup parsing.
//!
//! The base command — a program path plus fixed leading arguments — is set
//! once from the process argument list and never changes. Alongside it the
//! prompt text is built: the base command rendered shell-quoted, followed
//! by the space where live arguments are typed.

use crate::model::strings_view;
use vstd::prelude::*;
use vstd::string::StringExecFns;

verus! {

/// The fixed program and leading arguments common to every live invocation.
pub struct CommandBase {
    pub program: String,
    pub args: Vec<String>,
}

impl CommandBase {
    /// The full argument list of one invocation: the program, its fixed
    /// arguments, then the live arguments `extra`.
    pub open spec fn argv_for(self, extra: Seq<Seq<char>>) -> Seq<Seq<char>> {
        seq![self.program@] + strings_view(self.args@) + extra
    }
}

/// What `shell_words::quote` returns for the given word.
pub uninterp spec fn quote_of(s: Seq<char>) -> Seq<char>;

/// Relies on `shell_words::quote`: shell-escapes one word, as a function of
/// its characters alone.
#[verifier::external_body]
fn quote_word(s: &str) -> (r: String)
    ensures
        r@ == quote_of(s@),
{
    shell_words::quote(s).into_owned()
}

/// What `shell_words::join` returns: each word quoted as `shell_words::quote`
/// quotes it, the quoted words joined by single spaces.
pub open spec fn join_view(args: Seq<Seq<char>>) -> Seq<char>
    decreases args.len(),
{
    if args.len() == 0 {
        Seq::empty()
    } else if args.len() == 1 {
        quote_of(args[0])
    } else {
        quote_of(args[0]) + seq![' '] + join_view(args.drop_first())
    }
}

/// Relies on `shell_words::join`: quotes each word with `shell_words::quote`
/// and joins the quoted words with single spaces.
#[verifier::external_body]
fn join_words(args: &Vec<String>) -> (r: String)
    ensures
        r@ == join_view(strings_view(args@)),
{
    shell_words::join(args)
}

/// The prompt shown before input begins: the base command, shell-quoted for
/// unambiguous display, followed by the space where live arguments go.
pub open spec fn prompt_view(program: Seq<char>, args: Seq<Seq<char>>) -> Seq<char> {
    "> "@ + quote_of(program) + " "@ + join_view(args)
}

/// Reads the base command from the process argument list `argv` (element 0
/// being the process name): element 1 is the program, the rest its fixed
/// arguments. Fails exactly when element 1 is missing, with a diagnostic
/// naming the missing element.
pub fn parse_args(argv: Vec<String>) -> (r: Result<(CommandBase, String), String>)
    ensures
        r is Ok <==> argv@.len() >= 2,
        r matches Ok(p) ==> {
            &&& p.0.program@ == argv@[1]@
            &&& strings_view(p.0.args@) == strings_view(argv@).subrange(2, argv@.len() as int)
            &&& p.1@ == prompt_view(argv@[1]@, strings_view(p.0.args@))
        },
        argv@.len() == 0 ==> (r matches Err(m) && m@ == "missing argv[0]"@),
        argv@.len() == 1 ==> (r matches Err(m) && m@ == "missing argv[1]"@),
{
    if argv.len() == 0 {
        return Err("missing argv[0]".to_owned());
    }
    if argv.len() == 1 {
        return Err("missing argv[1]".to_owned());
    }
    let program = argv[1].clone();
    let mut args: Vec<String> = Vec::new();
    let mut i: usize = 2;
    while i < argv.len()
        invariant
            2 <= i <= argv@.len(),
            strings_view(args@) == strings_view(argv@).subrange(2, i as int),
        decreases argv@.len() - i,
    {
        let ghost pre = args@;
        args.push(argv[i].clone());
        proof {
            crate::model::lemma_strings_view_push(pre, argv@[i as int]);
            assert(strings_view(argv@).subrange(2, i + 1) =~~= strings_view(argv@).subrange(
                2,
                i as int,
            ).push(argv@[i as int]@));
        }
        i += 1;
    }
    assert(strings_view(args@) =~~= strings_view(argv@).subrange(2, argv@.len() as int));
    let mut prompt = "> ".to_owned();
    let quoted = quote_word(program.as_str());
    prompt.append(quoted.as_str());
    prompt.append(" ");
    let joined = join_words(&args);
    prompt.append(joined.as_str());
    assert(prompt@ == prompt_view(argv@[1]@, strings_view(args@)));
    Ok((CommandBase { program, args }, prompt))
}

} // verus!
