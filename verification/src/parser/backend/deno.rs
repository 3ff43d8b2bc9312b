//! The Deno parser backend: its configuration, and the decisions it takes on what
//! the Deno process reports. Running the process is left to the caller, who hands
//! these functions what it observed.

use vstd::prelude::*;
use vstd::string::StringExecFns;
use crate::parser::error::ParseError;

verus! {

/// Deno backend configuration.
#[derive(Debug, Clone)]
pub struct DenoBackendConfig {
    /// Path to Deno binary (default: "deno")
    pub deno_path: String,
    /// Path to deno_parser.ts script
    pub script_path: String,
    /// Timeout in seconds for Deno subprocess (default: 30)
    pub timeout: u64,
    /// Additional Deno CLI arguments
    pub deno_args: Vec<String>,
}

impl Default for DenoBackendConfig {
    /// `deno` run on `deno-bridge/deno_parser.ts` with `run --allow-read --allow-env`,
    /// and a timeout of 30 seconds.
    fn default() -> (r: Self)
        ensures
            r.deno_path@ == "deno"@,
            r.script_path@ == "deno-bridge/deno_parser.ts"@,
            r.timeout == 30,
            r.deno_args@.len() == 3,
            r.deno_args@[0]@ == "run"@,
            r.deno_args@[1]@ == "--allow-read"@,
            r.deno_args@[2]@ == "--allow-env"@,
    {
        let mut deno_args: Vec<String> = Vec::new();
        deno_args.push(String::from_str("run"));
        deno_args.push(String::from_str("--allow-read"));
        deno_args.push(String::from_str("--allow-env"));
        DenoBackendConfig {
            deno_path: String::from_str("deno"),
            script_path: String::from_str("deno-bridge/deno_parser.ts"),
            timeout: 30,
            deno_args,
        }
    }
}

/// The path `PathBuf::from` makes of the text `s`.
pub uninterp spec fn path_from(s: Seq<char>) -> std::path::PathBuf;

/// `PathBuf::from`, for the path of the parser script: the path of the text `s`,
/// which depends on the text alone.
#[verifier::external_body]
fn path_of(s: &String) -> (r: std::path::PathBuf)
    ensures
        r == path_from(s@),
{
    std::path::PathBuf::from(s)
}

/// The Deno parser backend: runs the TypeScript Compiler API in a Deno process.
#[derive(Debug, Clone)]
pub struct DenoBackend {
    config: DenoBackendConfig,
}

impl DenoBackend {
    /// The configuration of the backend.
    pub closed spec fn spec_config(self) -> DenoBackendConfig {
        self.config
    }

    /// A backend with the default configuration; `script_exists` tells whether its
    /// parser script exists.
    ///
    /// # Errors
    ///
    /// `FileNotFound` where the script does not exist.
    pub fn new(script_exists: bool) -> (r: Result<Self, ParseError>)
        ensures
            script_exists <==> r is Ok,
            r matches Ok(b) ==> b.spec_config().script_path@ == "deno-bridge/deno_parser.ts"@
                && b.spec_config().deno_path@ == "deno"@ && b.spec_config().timeout == 30
                && b.spec_config().deno_args@.len() == 3 && b.spec_config().deno_args@[0]@ == "run"@
                && b.spec_config().deno_args@[1]@ == "--allow-read"@ && b.spec_config().deno_args@[2]@
                == "--allow-env"@,
            !script_exists ==> r matches Err(ParseError::FileNotFound(_)),
    {
        Self::with_config(DenoBackendConfig::default(), script_exists)
    }

    /// A backend with `config`; `script_exists` tells whether the parser script at
    /// `config.script_path` exists.
    ///
    /// # Errors
    ///
    /// `FileNotFound`, with the path of `config.script_path`, where the script does
    /// not exist.
    pub fn with_config(config: DenoBackendConfig, script_exists: bool) -> (r: Result<Self, ParseError>)
        ensures
            script_exists <==> r is Ok,
            r matches Ok(b) ==> b.spec_config() == config,
            !script_exists ==> r == Err::<Self, ParseError>(ParseError::FileNotFound(path_from(config.script_path@))),
    {
        if !script_exists {
            return Err(ParseError::FileNotFound(path_of(&config.script_path)));
        }
        Ok(DenoBackend { config })
    }

    /// The configuration of the backend.
    pub fn config(&self) -> (r: &DenoBackendConfig)
        ensures
            *r == self.spec_config(),
    {
        &self.config
    }
}

/// What a check for the Deno binary found: `ran` is `Ok(succeeded)` where
/// `deno --version` ran, `Err(None)` where no binary was found and `Err(Some(text))`
/// for any other failure to start it.
pub fn deno_availability(ran: Result<bool, Option<String>>) -> (r: Result<(), ParseError>)
    ensures
        (ran matches Ok(b) && b) <==> r is Ok,
        (ran matches Ok(b) && !b) ==> r matches Err(ParseError::DenoNotFound),
        (ran matches Err(e) && e is None) ==> r matches Err(ParseError::DenoNotFound),
        ran matches Err(Some(t)) ==> (r matches Err(ParseError::DenoStartFailed(m)) && m@ == t@),
{
    match ran {
        Ok(true) => Ok(()),
        Ok(false) => Err(ParseError::DenoNotFound),
        Err(None) => Err(ParseError::DenoNotFound),
        Err(Some(t)) => Err(ParseError::DenoStartFailed(t)),
    }
}

/// What the exit status of the Deno process means: success, or the exit code and
/// the process's error output where it failed (`code` is none where a signal ended
/// it).
pub fn check_exit(success: bool, code: Option<i32>, stderr: String) -> (r: Result<(), ParseError>)
    ensures
        success <==> r is Ok,
        !success ==> (code matches Some(c) ==> (r matches Err(ParseError::DenoNonZeroExit { code: k, message: m })
            && k == c && m@ == stderr@)),
        !success && code is None ==> (r matches Err(ParseError::DenoExecutionError(m))
            && m@ == "Process terminated by signal: "@ + stderr@),
{
    if success {
        return Ok(());
    }
    match code {
        Some(c) => Err(ParseError::DenoNonZeroExit { code: c, message: stderr }),
        None => {
            let mut m = String::from_str("Process terminated by signal: ");
            m.append(stderr.as_str());
            proof {
                reveal_strlit("Process terminated by signal: ");
            }
            Err(ParseError::DenoExecutionError(m))
        },
    }
}

/// `lines` joined with a newline between each two.
pub open spec fn join_lines(lines: Seq<Seq<char>>) -> Seq<char>
    decreases lines.len(),
{
    if lines.len() == 0 {
        Seq::empty()
    } else if lines.len() == 1 {
        lines[0]
    } else {
        join_lines(lines.drop_last()) + seq!['\n'] + lines.last()
    }
}

/// The views of a list of strings.
pub open spec fn strings_view(v: Seq<String>) -> Seq<Seq<char>> {
    v.map_values(|s: String| s@)
}

/// `lines` joined with a newline between each two.
fn join_newline(lines: &Vec<String>) -> (r: String)
    ensures
        r@ == join_lines(strings_view(lines@)),
{
    let mut out = String::new();
    let mut i: usize = 0;
    while i < lines.len()
        invariant
            i <= lines@.len(),
            out@ == join_lines(strings_view(lines@.take(i as int))),
        decreases lines@.len() - i,
    {
        proof {
            reveal_strlit("\n");
            assert(strings_view(lines@.take(i + 1)).drop_last() =~= strings_view(lines@.take(i as int)));
            assert(strings_view(lines@.take(i + 1)).last() == lines@[i as int]@);
        }
        if i > 0 {
            out.append("\n");
        }
        out.append(lines[i].as_str());
        i = i + 1;
    }
    proof {
        assert(lines@.take(lines@.len() as int) =~= lines@);
    }
    out
}

/// What the Deno parser's reply means: its AST where it succeeded with no syntax
/// errors.
///
/// # Errors
///
/// `DenoExecutionError` with the reply's error (or "Unknown error from Deno
/// parser") where it did not succeed; `SyntaxError` at 1:1 with the errors joined
/// by newlines where there are any; `InvalidAst` where the AST is missing.
pub fn interpret_response<T>(success: bool, ast: Option<T>, errors: Vec<String>, error: Option<String>) -> (r: Result<T, ParseError>)
    ensures
        !success ==> (r matches Err(ParseError::DenoExecutionError(m)) && m@ == (match error {
            Some(e) => e@,
            None => "Unknown error from Deno parser"@,
        })),
        success && errors@.len() > 0 ==> (r matches Err(ParseError::SyntaxError { line, column, message })
            && line == 1 && column == 1 && message@ == join_lines(strings_view(errors@))),
        success && errors@.len() == 0 && ast is None ==> (r matches Err(ParseError::InvalidAst(m))
            && m@ == "Missing AST in response"@),
        success && errors@.len() == 0 && ast is Some ==> (r matches Ok(v) && Some(v) == ast),
{
    if !success {
        let m = match error {
            Some(e) => e,
            None => String::from_str("Unknown error from Deno parser"),
        };
        return Err(ParseError::DenoExecutionError(m));
    }
    if errors.len() > 0 {
        let message = join_newline(&errors);
        return Err(ParseError::SyntaxError { line: 1, column: 1, message });
    }
    match ast {
        Some(v) => Ok(v),
        None => Err(ParseError::InvalidAst(String::from_str("Missing AST in response"))),
    }
}

} // verus!
