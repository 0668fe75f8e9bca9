//! Registration of sol-dap as a debug adapter in an editor: how a
//! `forge test` task or a debug configuration becomes a launch
//! configuration for sol-dap.

use vstd::prelude::*;
use crate::fmt::{lit_chars, push_string, string_of};
use crate::text::{eq_lit, starts_with, starts_with_lit, str_chars};

verus! {

/// Debug adapter for Foundry Solidity projects using sol-dap.
///
/// It enables debugging of Solidity smart contracts in an editor by
/// launching sol-dap as a DAP server, for tests and scripts, with fork
/// testing and Foundry profile and verbosity options.
#[derive(Debug, Clone, Copy, PartialEq, Eq)]
pub struct SolidityDebugAdapter;

/// The editor extension that registers sol-dap.
#[derive(Debug, Clone, Copy, PartialEq, Eq)]
pub struct SolDapExtension;

/// The test and contract named so far by the `forge test` arguments from
/// `i` on, given those named before: `--match-test`/`--mt`/`-t` and
/// `--match-contract`/`--mc` take the next argument (nothing when there is
/// none); `--match-test=`, `--mt=`, `--match-contract=` and `--mc=` carry
/// the name themselves.
pub open spec fn forge_args_from(
    args: Seq<String>,
    i: int,
    test: Option<Seq<char>>,
    contract: Option<Seq<char>>,
) -> (Option<Seq<char>>, Option<Seq<char>>)
    decreases args.len() + 1 - i,
{
    if i < 0 || i >= args.len() {
        (test, contract)
    } else {
        let a = args[i]@;
        let next = if i + 1 < args.len() {
            Some(args[i + 1]@)
        } else {
            None
        };
        if a == "--match-test"@ || a == "--mt"@ || a == "-t"@ {
            forge_args_from(args, i + 2, next, contract)
        } else if a == "--match-contract"@ || a == "--mc"@ {
            forge_args_from(args, i + 2, test, next)
        } else {
            let t1 = if starts_with(a, "--match-test="@) {
                Some(a.skip(13))
            } else {
                test
            };
            let t2 = if starts_with(a, "--mt="@) {
                Some(a.skip(5))
            } else {
                t1
            };
            let c1 = if starts_with(a, "--match-contract="@) {
                Some(a.skip(17))
            } else {
                contract
            };
            let c2 = if starts_with(a, "--mc="@) {
                Some(a.skip(5))
            } else {
                c1
            };
            forge_args_from(args, i + 1, t2, c2)
        }
    }
}

/// The test and contract that `forge test` arguments select, when a test is named.
pub open spec fn forge_test_spec(args: Seq<String>) -> Option<(Seq<char>, Option<Seq<char>>)> {
    let r = forge_args_from(args, 0, None, None);
    match r.0 {
        Some(t) => Some((t, r.1)),
        None => None,
    }
}

/// `s` without its first `k` characters, when it begins with `lit`.
fn strip_lit(s: &Vec<char>, lit: &str, k: usize) -> (r: Option<String>)
    requires
        lit@.len() == k,
    ensures
        match r {
            Some(x) => starts_with(s@, lit@) && x@ == s@.skip(k as int),
            None => !starts_with(s@, lit@),
        },
{
    if starts_with_lit(s, lit) {
        let rest = crate::text::slice_chars(s, k, s.len());
        assert(rest@ =~= s@.skip(k as int));
        Some(string_of(&rest))
    } else {
        None
    }
}

pub open spec fn opt_view(o: Option<String>) -> Option<Seq<char>> {
    match o {
        Some(s) => Some(s@),
        None => None,
    }
}

impl SolDapExtension {
    /// Extracts the test and contract names from `forge test` arguments,
    /// as in `forge test --match-test testFoo --match-contract Bar` or
    /// `forge test --mt testFoo`.
    pub fn parse_forge_test_args(args: &Vec<String>) -> (r: Option<(String, Option<String>)>)
        ensures
            match r {
                Some(p) => forge_test_spec(args@) == Some((p.0@, opt_view(p.1))),
                None => forge_test_spec(args@) is None,
            },
    {
        let mut test: Option<String> = None;
        let mut contract: Option<String> = None;
        let mut i: usize = 0;
        while i < args.len()
            invariant
                i <= args@.len(),
                forge_args_from(args@, i as int, opt_view(test), opt_view(contract)) == forge_args_from(
                    args@,
                    0,
                    None,
                    None,
                ),
            decreases args.len() - i,
        {
            let a = str_chars(args[i].as_str());
            let ghost t0 = opt_view(test);
            let ghost c0 = opt_view(contract);
            let ghost i0 = i as int;
            proof {
                reveal_strlit("--match-test=");
                reveal_strlit("--mt=");
                reveal_strlit("--match-contract=");
                reveal_strlit("--mc=");
            }
            if eq_lit(&a, "--match-test") || eq_lit(&a, "--mt") || eq_lit(&a, "-t") {
                test = if i + 1 < args.len() {
                    Some(args[i + 1].clone())
                } else {
                    None
                };
                assert(a@ == args@[i0]@);
                assert(opt_view(test) == if i0 + 1 < args@.len() {
                    Some(args@[i0 + 1]@)
                } else {
                    None
                });
                assert(forge_args_from(args@, i0, t0, c0) == forge_args_from(
                    args@,
                    i0 + 2,
                    opt_view(test),
                    opt_view(contract),
                ));
                i = if i + 1 < args.len() {
                    i + 2
                } else {
                    args.len()
                };
            } else if eq_lit(&a, "--match-contract") || eq_lit(&a, "--mc") {
                contract = if i + 1 < args.len() {
                    Some(args[i + 1].clone())
                } else {
                    None
                };
                assert(a@ == args@[i0]@);
                assert(!(a@ == "--match-test"@ || a@ == "--mt"@ || a@ == "-t"@));
                assert(forge_args_from(args@, i0, t0, c0) == forge_args_from(
                    args@,
                    i0 + 2,
                    opt_view(test),
                    opt_view(contract),
                ));
                i = if i + 1 < args.len() {
                    i + 2
                } else {
                    args.len()
                };
            } else {
                match strip_lit(&a, "--match-test=", 13) {
                    Some(x) => {
                        test = Some(x);
                    },
                    None => {},
                }
                match strip_lit(&a, "--mt=", 5) {
                    Some(x) => {
                        test = Some(x);
                    },
                    None => {},
                }
                match strip_lit(&a, "--match-contract=", 17) {
                    Some(x) => {
                        contract = Some(x);
                    },
                    None => {},
                }
                match strip_lit(&a, "--mc=", 5) {
                    Some(x) => {
                        contract = Some(x);
                    },
                    None => {},
                }
                assert(a@ == args@[i0]@);
                assert(forge_args_from(args@, i0, t0, c0) == forge_args_from(
                    args@,
                    i0 + 1,
                    opt_view(test),
                    opt_view(contract),
                ));
                i = i + 1;
            }
        }
        match test {
            Some(t) => Some((t, contract)),
            None => None,
        }
    }

    /// The command that runs the adapter: the path the user gave, or
    /// `sol-dap` on the search path.
    pub fn adapter_command(user_provided_path: Option<String>) -> (r: String)
        ensures
            r@ == match user_provided_path {
                Some(p) => p@,
                None => "sol-dap"@,
            },
    {
        match user_provided_path {
            Some(p) => p,
            None => String::from_str("sol-dap"),
        }
    }
}

/// A debug scenario handed to the editor: its label, the adapter, and the
/// launch configuration as JSON text.
#[derive(Debug)]
pub struct DebugScenario {
    pub label: String,
    pub adapter: String,
    pub config: String,
}

/// What `serde_json::to_string` gives for a JSON object whose members are
/// the string pairs `entries` (a later pair of a key replacing an earlier).
pub uninterp spec fn json_object_text(entries: Seq<(Seq<char>, Seq<char>)>) -> Result<Seq<char>, Seq<char>>;

pub open spec fn entries_view(e: Seq<(String, String)>) -> Seq<(Seq<char>, Seq<char>)> {
    e.map_values(|p: (String, String)| (p.0@, p.1@))
}

/// `serde_json::to_string` of a `serde_json::Map` built by inserting the
/// string pairs `entries` in order; the error as its message.
#[verifier::external_body]
pub(crate) fn json_object(entries: &Vec<(String, String)>) -> (r: Result<String, String>)
    ensures
        match r {
            Ok(t) => json_object_text(entries_view(entries@)) == Ok::<Seq<char>, Seq<char>>(t@),
            Err(e) => json_object_text(entries_view(entries@)) == Err::<Seq<char>, Seq<char>>(e@),
        },
{
    let map: serde_json::Map<String, serde_json::Value> = entries
        .iter()
        .map(|(k, v)| (k.clone(), serde_json::Value::String(v.clone())))
        .collect();
    serde_json::to_string(&serde_json::Value::Object(map)).map_err(|e| e.to_string())
}

/// The launch configuration of a `forge test` task: the project is the
/// task's directory; the test and contract come from its arguments.
pub open spec fn locator_entries(args: Seq<String>, cwd: Option<Seq<char>>) -> Option<
    Seq<(Seq<char>, Seq<char>)>,
> {
    match forge_test_spec(args) {
        Some(tc) => Some(
            seq![("request"@, "launch"@)] + match cwd {
                Some(c) => seq![("project_root"@, c)],
                None => seq![],
            } + seq![("test"@, tc.0)] + match tc.1 {
                Some(c) => seq![("contract"@, c)],
                None => seq![],
            },
        ),
        None => None,
    }
}

/// Whether some argument is `test`.
pub open spec fn has_test_arg(args: Seq<String>) -> bool {
    exists|i: int| 0 <= i < args.len() && #[trigger] args[i]@ == "test"@
}

/// The scenario that a `forge test` task becomes: none for another command,
/// for a `forge` run that is no `test`, or when no test is named.
pub open spec fn locator_spec(command: Seq<char>, args: Seq<String>, cwd: Option<Seq<char>>, label: Seq<char>) -> Option<
    (Seq<char>, Seq<char>, Seq<char>),
> {
    if command != "forge"@ || !has_test_arg(args) {
        None
    } else {
        match locator_entries(args, cwd) {
            Some(e) => match json_object_text(e) {
                Ok(t) => Some(("Debug "@ + label, "sol-dap"@, t)),
                Err(_) => None,
            },
            None => None,
        }
    }
}

pub open spec fn scenario_view(s: DebugScenario) -> (Seq<char>, Seq<char>, Seq<char>) {
    (s.label@, s.adapter@, s.config@)
}

fn pair(k: &str, v: &String) -> (r: (String, String))
    ensures
        r.0@ == k@,
        r.1@ == v@,
{
    let kc = lit_chars(k);
    (string_of(&kc), v.clone())
}

fn push_pair(out: &mut Vec<(String, String)>, k: &str, v: &String)
    ensures
        entries_view(final(out)@) == entries_view(old(out)@).push((k@, v@)),
{
    let p = pair(k, v);
    let ghost before = out@;
    out.push(p);
    assert(entries_view(out@) =~= entries_view(before).push((k@, v@)));
}

impl SolDapExtension {
    /// Turns a `forge test` task into a debug scenario for sol-dap: what
    /// makes a "Debug" action appear next to such tasks.
    pub fn dap_locator_create_scenario(
        command: &String,
        args: &Vec<String>,
        cwd: Option<&String>,
        resolved_label: &String,
    ) -> (r: Option<DebugScenario>)
        ensures
            match r {
                Some(s) => locator_spec(
                    command@,
                    args@,
                    match cwd {
                        Some(c) => Some(c@),
                        None => None,
                    },
                    resolved_label@,
                ) == Some(scenario_view(s)),
                None => locator_spec(
                    command@,
                    args@,
                    match cwd {
                        Some(c) => Some(c@),
                        None => None,
                    },
                    resolved_label@,
                ) is None,
            },
    {
        let cmd = str_chars(command.as_str());
        if !eq_lit(&cmd, "forge") {
            return None;
        }
        let mut found = false;
        let mut i: usize = 0;
        while i < args.len()
            invariant
                i <= args@.len(),
                found == exists|j: int| 0 <= j < i && #[trigger] args@[j]@ == "test"@,
            decreases args.len() - i,
        {
            let a = str_chars(args[i].as_str());
            if eq_lit(&a, "test") {
                found = true;
            }
            i = i + 1;
        }
        if !found {
            return None;
        }
        let (test, contract) = match Self::parse_forge_test_args(args) {
            Some(tc) => tc,
            None => {
                return None;
            },
        };
        let mut entries: Vec<(String, String)> = Vec::new();
        push_pair(&mut entries, "request", &String::from_str("launch"));
        match cwd {
            Some(c) => push_pair(&mut entries, "project_root", c),
            None => {},
        }
        push_pair(&mut entries, "test", &test);
        match &contract {
            Some(c) => push_pair(&mut entries, "contract", c),
            None => {},
        }
        let ghost cv = match cwd {
            Some(c) => Some(c@),
            None => None,
        };
        assert(entries_view(entries@) =~= locator_entries(args@, cv)->0);
        match json_object(&entries) {
            Ok(text) => {
                let mut label = lit_chars("Debug ");
                push_string(&mut label, resolved_label);
                Some(
                    DebugScenario {
                        label: string_of(&label),
                        adapter: String::from_str("sol-dap"),
                        config: text,
                    },
                )
            },
            Err(_) => None,
        }
    }
}

/// The request of a debug configuration.
#[derive(Debug)]
pub enum DebugRequest {
    /// Launch a program: its path, working directory and arguments.
    Launch { program: String, cwd: Option<String>, args: Vec<String> },
    Attach,
}

/// The launch configuration of a debug configuration: the program (or,
/// overriding it, the working directory) is the project; the first
/// argument is the test and the second the contract.
pub open spec fn launch_entries(program: Seq<char>, cwd: Option<Seq<char>>, args: Seq<String>) -> Seq<
    (Seq<char>, Seq<char>),
> {
    seq![("request"@, "launch"@)] + (if program.len() > 0 {
        seq![("project_root"@, program)]
    } else {
        seq![]
    }) + match cwd {
        Some(c) => seq![("project_root"@, c)],
        None => seq![],
    } + (if args.len() > 0 {
        seq![("test"@, args[0]@)]
    } else {
        seq![]
    }) + (if args.len() > 1 {
        seq![("contract"@, args[1]@)]
    } else {
        seq![]
    })
}

/// The scenario of a debug configuration labelled `label`; sol-dap only
/// launches.
pub open spec fn scenario_spec(label: Seq<char>, request: DebugRequest) -> Result<
    (Seq<char>, Seq<char>, Seq<char>),
    Seq<char>,
> {
    match request {
        DebugRequest::Launch { program, cwd, args } => match json_object_text(
            launch_entries(
                program@,
                match cwd {
                    Some(c) => Some(c@),
                    None => None,
                },
                args@,
            ),
        ) {
            Ok(t) => Ok((label, "sol-dap"@, t)),
            Err(e) => Err("failed to serialize config: "@ + e),
        },
        DebugRequest::Attach => Err("sol-dap only supports launch requests"@),
    }
}

impl SolDapExtension {
    /// Turns a debug configuration into a debug scenario for sol-dap.
    pub fn dap_config_to_scenario(label: &String, request: &DebugRequest) -> (r: Result<
        DebugScenario,
        String,
    >)
        ensures
            match r {
                Ok(s) => scenario_spec(label@, *request) == Ok::<
                    (Seq<char>, Seq<char>, Seq<char>),
                    Seq<char>,
                >(scenario_view(s)),
                Err(e) => scenario_spec(label@, *request) == Err::<
                    (Seq<char>, Seq<char>, Seq<char>),
                    Seq<char>,
                >(e@),
            },
    {
        match request {
            DebugRequest::Launch { program, cwd, args } => {
                let mut entries: Vec<(String, String)> = Vec::new();
                push_pair(&mut entries, "request", &String::from_str("launch"));
                if program.unicode_len() > 0 {
                    push_pair(&mut entries, "project_root", program);
                }
                match cwd {
                    Some(c) => push_pair(&mut entries, "project_root", c),
                    None => {},
                }
                if args.len() > 0 {
                    push_pair(&mut entries, "test", &args[0]);
                }
                if args.len() > 1 {
                    push_pair(&mut entries, "contract", &args[1]);
                }
                let ghost cv = match cwd {
                    Some(c) => Some(c@),
                    None => None,
                };
                assert(entries_view(entries@) =~= launch_entries(program@, cv, args@));
                match json_object(&entries) {
                    Ok(text) => Ok(
                        DebugScenario {
                            label: label.clone(),
                            adapter: String::from_str("sol-dap"),
                            config: text,
                        },
                    ),
                    Err(e) => {
                        let mut m = lit_chars("failed to serialize config: ");
                        push_string(&mut m, &e);
                        Err(string_of(&m))
                    },
                }
            },
            DebugRequest::Attach => Err(String::from_str("sol-dap only supports launch requests")),
        }
    }
}

} // verus!
