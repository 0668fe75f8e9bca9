//! What a debug session is started from: the recorded trace and the
//! compiler's metadata about the contracts in it.

use vstd::prelude::*;
use vstd::string::StringSliceAdditionalSpecFns;
use vstd::utf8::encode_utf8;
use crate::fmt::{hex_bytes_chars, join, join_strings, lit_chars, push_chars, push_lit, string_of};
use crate::text::str_chars;
use crate::trace::{Address, TraceNode};
use crate::variables::{duplicate_info, info_view};
use crate::word::{hex_bytes, keccak256, keccak256_spec};

verus! {

/// Parsed Solidity storage layout for a contract.
#[derive(Debug)]
pub struct StorageLayout {
    pub storage: Vec<StorageEntry>,
    /// Type key → type description.
    pub types: Vec<(String, StorageType)>,
}

/// One state variable in a storage layout.
#[derive(Debug)]
pub struct StorageEntry {
    pub label: String,
    pub slot: String,
    pub offset: u64,
    pub type_key: String,
}

/// A type in a storage layout.
#[derive(Debug)]
pub struct StorageType {
    pub label: String,
    pub number_of_bytes: String,
    /// `inplace`, `mapping`, `bytes` or `dynamic_array`.
    pub encoding: Option<String>,
    /// Type key of a mapping's values.
    pub value_type: Option<String>,
}

/// An event of a contract ABI.
#[derive(Debug)]
pub struct EventInfo {
    pub name: String,
    pub params: Vec<EventParam>,
}

/// A parameter of an event.
#[derive(Debug)]
pub struct EventParam {
    pub name: String,
    pub type_field: String,
    pub indexed: bool,
}

/// Everything a debug session is built from.
pub struct DebuggerContext {
    pub debug_arena: Vec<TraceNode>,
    /// Address → contract name.
    pub identified_contracts: Vec<(Address, String)>,
    /// Contract name → storage layout.
    pub storage_layouts: Vec<(String, StorageLayout)>,
    /// Function selector (`0x` and 8 hex digits) → function signature.
    pub method_identifiers: Vec<(String, String)>,
    /// Function selector → parameter names and types.
    pub function_params: Vec<(String, Vec<(String, String)>)>,
    /// Event topic 0 (`0x` and 64 hex digits) → event.
    pub event_signatures: Vec<(String, EventInfo)>,
}

/// Index of the first `::` in `s`, from `i` on.
pub open spec fn separator_from(s: Seq<char>, i: int) -> Option<int>
    decreases s.len() - i,
{
    if i < 0 || i + 1 >= s.len() {
        None
    } else if s[i] == ':' && s[i + 1] == ':' {
        Some(i)
    } else {
        separator_from(s, i + 1)
    }
}

/// The contract and the test to match: the given contract; or, in a test
/// named `Contract::test`, the part before the first `::`, when both parts
/// are non-empty; or no contract.
pub open spec fn split_spec(contract: Option<Seq<char>>, test: Seq<char>) -> (Option<Seq<char>>, Seq<char>) {
    match contract {
        Some(c) => (Some(c), test),
        None => match separator_from(test, 0) {
            Some(i) => if i > 0 && i + 2 < test.len() {
                (Some(test.subrange(0, i)), test.skip(i + 2))
            } else {
                (None, test)
            },
            None => (None, test),
        },
    }
}

/// Splits a test name of the form `Contract::test`, unless a contract is given.
pub fn split_contract_test(contract: Option<&str>, test: &str) -> (r: (Option<String>, String))
    ensures
        (match r.0 {
            Some(c) => Some(c@),
            None => None,
        }, r.1@) == split_spec(
            match contract {
                Some(c) => Some(c@),
                None => None,
            },
            test@,
        ),
{
    match contract {
        Some(c) => {
            return (Some(String::from_str(c)), String::from_str(test));
        },
        None => {},
    }
    let t = crate::text::str_chars(test);
    let n = t.len();
    match find_separator(&t) {
        Some(i) => {
            if i > 0 && i + 2 < n {
                let c = crate::text::slice_chars(&t, 0, i);
                let rest = crate::text::slice_chars(&t, i + 2, n);
                assert(rest@ =~= test@.skip(i + 2));
                (Some(crate::fmt::string_of(&c)), crate::fmt::string_of(&rest))
            } else {
                (None, String::from_str(test))
            }
        },
        None => (None, String::from_str(test)),
    }
}

/// The first `::` in `t`.
fn find_separator(t: &Vec<char>) -> (r: Option<usize>)
    ensures
        match r {
            Some(i) => separator_from(t@, 0) == Some(i as int) && i + 1 < t@.len(),
            None => separator_from(t@, 0) is None,
        },
{
    let n = t.len();
    let mut i: usize = 0;
    while n > 0 && i < n - 1
        invariant
            n == t@.len(),
            separator_from(t@, i as int) == separator_from(t@, 0),
        decreases n - i,
    {
        if t[i] == ':' && t[i + 1] == ':' {
            return Some(i);
        }
        i = i + 1;
    }
    None
}

/// The address a text names, as `Address::from_str` reads it: 40
/// hexadecimal digits, after an optional `0x` or `0X`.
pub open spec fn address_literal(s: Seq<char>) -> Option<nat> {
    let body = if s.len() >= 2 && s[0] == '0' && (s[1] == 'x' || s[1] == 'X') {
        s.skip(2)
    } else {
        s
    };
    if body.len() == 40 && crate::text::all_hex_digits(body) {
        Some(crate::word::radix_value(body, 16))
    } else {
        None
    }
}

/// `alloy_primitives::Address::from_str`: 40 hexadecimal digits (either
/// case), after an optional `0x`, as the address they spell.
#[verifier::external_body]
pub(crate) fn parse_address(s: &str) -> (r: Option<Address>)
    ensures
        match r {
            Some(a) => address_literal(s@) == Some(crate::word::val(a.value)),
            None => address_literal(s@) is None,
        },
{
    match s.parse::<alloy_primitives::Address>() {
        Ok(a) => {
            let x = alloy_primitives::U256::from_be_slice(a.as_slice()).into_limbs();
            Some(Address { value: crate::word::Word { l0: x[0], l1: x[1], l2: x[2], l3: x[3] } })
        },
        Err(_) => None,
    }
}

/// Why a debug session cannot be prepared from a launch configuration.
#[derive(Debug, Clone, Copy, PartialEq, Eq)]
pub enum LaunchError {
    /// Only tests can be debugged, and the configuration names none.
    MissingTest,
}

impl LaunchError {
    /// The message shown to the user.
    pub fn message(&self) -> (r: String)
        ensures
            r@ == "only test debugging is supported for now (missing `test`)"@,
    {
        String::from_str("only test debugging is supported for now (missing `test`)")
    }
}

/// The contract and test that `forge test` is asked to match for `config`:
/// its test, split as `split_contract_test` does; refused when it names no
/// test.
pub fn forge_test_filter(config: &crate::config::LaunchConfig) -> (r: Result<
    (Option<String>, String),
    LaunchError,
>)
    ensures
        match config.test {
            None => r == Err::<(Option<String>, String), LaunchError>(LaunchError::MissingTest),
            Some(t) => match r {
                Ok(p) => (match p.0 {
                    Some(c) => Some(c@),
                    None => None,
                }, p.1@) == split_spec(
                    match config.contract {
                        Some(c) => Some(c@),
                        None => None,
                    },
                    t@,
                ),
                Err(_) => false,
            },
        },
{
    match &config.test {
        None => Err(LaunchError::MissingTest),
        Some(t) => {
            let contract: Option<&str> = match &config.contract {
                Some(c) => Some(c.as_str()),
                None => None,
            };
            Ok(split_contract_test(contract, t.as_str()))
        },
    }
}

/// First index at or after `i` of an entry for address `a`.
pub open spec fn address_index_from(v: Seq<(nat, Seq<char>)>, a: nat, i: int) -> Option<int>
    decreases v.len() - i,
{
    if i < 0 || i >= v.len() {
        None
    } else if v[i].0 == a {
        Some(i)
    } else {
        address_index_from(v, a, i + 1)
    }
}

/// `v` with `name` recorded for address `a`: the entry for `a` replaced, or
/// a new entry at the end, as inserting into a map does.
pub open spec fn upsert(v: Seq<(nat, Seq<char>)>, a: nat, name: Seq<char>) -> Seq<(nat, Seq<char>)> {
    match address_index_from(v, a, 0) {
        Some(k) => v.update(k, (a, name)),
        None => v.push((a, name)),
    }
}

/// The identified contracts of a forge dump, keyed by address text: each
/// address parsed and recorded in order (a later key of the same address
/// replacing the earlier); or the first key that is no address.
pub open spec fn identified_spec(raw: Seq<(String, String)>) -> Result<Seq<(nat, Seq<char>)>, Seq<char>>
    decreases raw.len(),
{
    if raw.len() == 0 {
        Ok(seq![])
    } else {
        match identified_spec(raw.drop_last()) {
            Ok(prev) => match address_literal(raw.last().0@) {
                Some(a) => Ok(upsert(prev, a, raw.last().1@)),
                None => Err(raw.last().0@),
            },
            Err(k) => Err(k),
        }
    }
}

pub open spec fn ids_view(v: Seq<(Address, String)>) -> Seq<(nat, Seq<char>)> {
    v.map_values(|p: (Address, String)| (crate::word::val(p.0.value), p.1@))
}

proof fn lemma_address_index(v: Seq<(nat, Seq<char>)>, a: nat, i: int)
    requires
        0 <= i,
    ensures
        match address_index_from(v, a, i) {
            Some(k) => i <= k < v.len() && v[k].0 == a && forall|j: int| i <= j < k ==> v[j].0 != a,
            None => forall|j: int| i <= j < v.len() ==> v[j].0 != a,
        },
    decreases v.len() - i,
{
    if i < v.len() && v[i].0 != a {
        lemma_address_index(v, a, i + 1);
    }
}

/// Records `name` for address `a` in `out`, as inserting into a map does.
#[verifier::spinoff_prover]
#[verifier::rlimit(40)]
fn record_address(out: &mut Vec<(Address, String)>, a: Address, name: String)
    requires
        crate::session::distinct_addresses(old(out)@),
    ensures
        ids_view(final(out)@) == upsert(ids_view(old(out)@), crate::word::val(a.value), name@),
        crate::session::distinct_addresses(final(out)@),
{
    let ghost before = out@;
    let ghost bv = ids_view(before);
    let ghost av = crate::word::val(a.value);
    let mut j: usize = 0;
    let mut found = false;
    while j < out.len()
        invariant_except_break
            !found,
        invariant
            out@ == before,
            bv == ids_view(before),
            av == crate::word::val(a.value),
            j <= before.len(),
            address_index_from(bv, av, j as int) == address_index_from(bv, av, 0),
        ensures
            found ==> j < before.len() && address_index_from(bv, av, 0) == Some(j as int),
            !found ==> address_index_from(bv, av, 0) is None,
        decreases out.len() - j,
    {
        proof {
            crate::word::lemma_val_injective(out@[j as int].0.value, a.value);
        }
        if out[j].0 == a {
            found = true;
            break;
        }
        j = j + 1;
    }
    proof {
        lemma_address_index(bv, av, 0);
    }
    if found {
        out.set(j, (a, name));
        proof {
            assert(ids_view(out@) =~= bv.update(j as int, (av, name@)));
            assert forall|x: int, y: int| 0 <= x < y < out@.len() implies (
                #[trigger] out@[x]).0 != (#[trigger] out@[y]).0 by {
                if x == j as int {
                    assert(before[y].0 != before[x].0);
                } else if y == j as int {
                    assert(before[y].0 != before[x].0);
                } else {
                    assert(before[y].0 != before[x].0);
                }
            }
        }
    } else {
        out.push((a, name));
        proof {
            assert(ids_view(out@) =~= bv.push((av, name@)));
            assert forall|x: int, y: int| 0 <= x < y < out@.len() implies (
                #[trigger] out@[x]).0 != (#[trigger] out@[y]).0 by {
                if y == before.len() {
                    assert(bv[x].0 != av);
                    if out@[x].0 == a {
                        assert(bv[x].0 == av);
                    }
                } else {
                    assert(out@[x] == before[x]);
                    assert(out@[y] == before[y]);
                }
            }
        }
    }
}

/// Parses the identified contracts of a forge dump into a map from address
/// to name; the error is the first key that is no address.
pub fn parse_identified_contracts(raw: Vec<(String, String)>) -> (r: Result<Vec<(Address, String)>, String>)
    ensures
        match (r, identified_spec(raw@)) {
            (Ok(v), Ok(s)) => ids_view(v@) == s && crate::session::distinct_addresses(v@),
            (Err(k), Err(t)) => k@ == t,
            _ => false,
        },
{
    let ghost rv = raw@;
    let total = raw.len();
    let mut out: Vec<(Address, String)> = Vec::new();
    let mut rest = raw;
    let mut i: usize = 0;
    assert(rv.subrange(0, 0) =~= seq![]);
    assert(ids_view(out@) =~= seq![]);
    while rest.len() > 0
        invariant
            rv == raw@,
            total == rv.len(),
            i + rest@.len() == rv.len(),
            forall|x: int| 0 <= x < rest@.len() ==> #[trigger] rest@[x] == rv[i + x],
            identified_spec(rv.subrange(0, i as int)) == Ok::<Seq<(nat, Seq<char>)>, Seq<char>>(
                ids_view(out@),
            ),
            crate::session::distinct_addresses(out@),
        decreases rest.len(),
    {
        let (key, name) = rest.remove(0);
        let ghost pre = rv.subrange(0, i as int);
        assert(rv.subrange(0, i + 1).drop_last() =~= pre);
        assert(rv.subrange(0, i + 1).last() == rv[i as int]);
        match parse_address(key.as_str()) {
            Some(a) => {
                record_address(&mut out, a, name);
                assert(identified_spec(rv.subrange(0, i + 1)) == Ok::<Seq<(nat, Seq<char>)>, Seq<char>>(
                    ids_view(out@),
                ));
            },
            None => {
                assert(identified_spec(rv.subrange(0, i + 1)) == Err::<Seq<(nat, Seq<char>)>, Seq<char>>(key@));
                proof {
                    lemma_identified_err(rv, i as int + 1);
                }
                return Err(key);
            },
        }
        i = i + 1;
    }
    assert(rv.subrange(0, i as int) =~= rv);
    Ok(out)
}

proof fn lemma_identified_err(raw: Seq<(String, String)>, k: int)
    requires
        0 < k <= raw.len(),
        identified_spec(raw.subrange(0, k)) is Err,
    ensures
        identified_spec(raw) == identified_spec(raw.subrange(0, k)),
    decreases raw.len() - k,
{
    if k < raw.len() {
        assert(raw.subrange(0, k + 1).drop_last() =~= raw.subrange(0, k));
        lemma_identified_err(raw, k + 1);
    } else {
        assert(raw.subrange(0, k) =~= raw);
    }
}

// ===================== Compiler artifacts =====================

/// What the debugger reads from a compiler artifact of a contract.
#[derive(Debug)]
pub struct ArtifactInfo {
    pub contract_name: String,
    pub storage_layout: Option<StorageLayout>,
    /// Function signature → selector (8 hexadecimal digits).
    pub method_identifiers: Option<Vec<(String, String)>>,
    /// The functions of the ABI: name and inputs (name, type).
    pub abi_functions: Vec<(String, Vec<(String, String)>)>,
    /// The events of the ABI.
    pub abi_events: Vec<EventInfo>,
}

/// A list of pairs read as a map: each key to the value of its first pair.
pub open spec fn pairs_map<V, W>(v: Seq<(String, V)>, f: spec_fn(V) -> W) -> Map<Seq<char>, W> {
    Map::new(
        |k: Seq<char>| crate::variables::key_index(v, k, 0) is Some,
        |k: Seq<char>| f(v[crate::variables::key_index(v, k, 0)->0].1),
    )
}

proof fn lemma_key_index_update<V>(v: Seq<(String, V)>, i: int, x: (String, V), k: Seq<char>, j: int)
    requires
        0 <= i < v.len(),
        x.0@ == v[i].0@,
        0 <= j,
    ensures
        crate::variables::key_index(v.update(i, x), k, j) == crate::variables::key_index(v, k, j),
    decreases v.len() - j,
{
    if j < v.len() {
        lemma_key_index_update(v, i, x, k, j + 1);
    }
}

proof fn lemma_key_index_push<V>(v: Seq<(String, V)>, x: (String, V), k: Seq<char>, j: int)
    requires
        0 <= j <= v.len(),
    ensures
        crate::variables::key_index(v.push(x), k, j) == match crate::variables::key_index(v, k, j) {
            Some(i) => Some(i),
            None => if x.0@ == k {
                Some(v.len() as int)
            } else {
                None
            },
        },
    decreases v.len() - j,
{
    if j < v.len() {
        lemma_key_index_push(v, x, k, j + 1);
        assert(v.push(x)[j] == v[j]);
    } else {
        assert(crate::variables::key_index(v.push(x), k, j + 1) is None);
        assert(v.push(x)[j] == x);
    }
}

proof fn lemma_key_index_found<V>(v: Seq<(String, V)>, k: Seq<char>, j: int)
    requires
        0 <= j,
    ensures
        crate::variables::key_index(v, k, j) matches Some(i) ==> j <= i < v.len() && v[i].0@ == k,
    decreases v.len() - j,
{
    if j < v.len() {
        lemma_key_index_found(v, k, j + 1);
    }
}

/// Sets the value of key `k`: the first pair of that key is replaced, or a
/// pair is added.
fn insert_pair<V>(v: &mut Vec<(String, V)>, k: String, x: V)
    ensures
        match crate::variables::key_index(old(v)@, k@, 0) {
            Some(i) => final(v)@ == old(v)@.update(i, (k, x)),
            None => final(v)@ == old(v)@.push((k, x)),
        },
{
    match crate::variables::find_key(v, &k) {
        Some(i) => {
            v.set(i, (k, x));
        },
        None => {
            v.push((k, x));
        },
    }
}

proof fn lemma_insert_map<V, W>(old: Seq<(String, V)>, new: Seq<(String, V)>, k: String, x: V, f: spec_fn(V) -> W)
    requires
        match crate::variables::key_index(old, k@, 0) {
            Some(i) => new == old.update(i, (k, x)),
            None => new == old.push((k, x)),
        },
    ensures
        pairs_map(new, f) == pairs_map(old, f).insert(k@, f(x)),
{
    match crate::variables::key_index(old, k@, 0) {
        Some(i) => {
            lemma_key_index_found(old, k@, 0);
            assert forall|q: Seq<char>| crate::variables::key_index(new, q, 0) == crate::variables::key_index(old, q, 0) by {
                lemma_key_index_update(old, i, (k, x), q, 0);
            }
        },
        None => {
            assert forall|q: Seq<char>| crate::variables::key_index(new, q, 0) == match crate::variables::key_index(old, q, 0) {
                Some(i) => Some(i),
                None => if k@ == q {
                    Some(old.len() as int)
                } else {
                    None
                },
            } by {
                lemma_key_index_push(old, (k, x), q, 0);
            }
            assert forall|q: Seq<char>| #[trigger] crate::variables::key_index(old, q, 0) is Some implies crate::variables::key_index(old, q, 0)->0 < old.len() by {
                lemma_key_index_found(old, q, 0);
            }
        },
    }
    assert forall|q: Seq<char>| #[trigger] pairs_map(new, f).dom().contains(q) <==> pairs_map(
        old,
        f,
    ).insert(k@, f(x)).dom().contains(q) by {}
    assert forall|q: Seq<char>| pairs_map(new, f).dom().contains(q) implies #[trigger] pairs_map(
        new,
        f,
    )[q] == pairs_map(old, f).insert(k@, f(x))[q] by {
        lemma_key_index_found(new, q, 0);
        lemma_key_index_found(old, q, 0);
        match crate::variables::key_index(old, k@, 0) {
            Some(i) => {
                if q != k@ {
                    let idx = crate::variables::key_index(new, q, 0)->0;
                    assert(idx != i);
                    assert(new[idx] == old[idx]);
                }
            },
            None => {
                if q != k@ {
                    let idx = crate::variables::key_index(new, q, 0)->0;
                    assert(idx < old.len());
                    assert(new[idx] == old[idx]);
                }
            },
        }
    }
    assert(pairs_map(new, f) =~= pairs_map(old, f).insert(k@, f(x)));
}

pub open spec fn string_view(s: String) -> Seq<char> {
    s@
}

pub open spec fn param_list_view(p: Vec<(String, String)>) -> Seq<(Seq<char>, Seq<char>)> {
    crate::variables::params_view(p@)
}

pub open spec fn layout_id(l: StorageLayout) -> StorageLayout {
    l
}

/// The signature of an ABI function: `name(type1,type2,...)`.
pub open spec fn abi_signature(f: (String, Vec<(String, String)>)) -> Seq<char> {
    f.0@ + "("@ + crate::fmt::join(
        Seq::new(f.1@.len(), |i: int| f.1@[i].1@),
        ","@,
    ) + ")"@
}

/// The parameters that the first `k` ABI functions of an artifact add: for
/// a function with inputs whose signature has a selector, the selector
/// (`0x` and its digits) maps to its inputs.
pub open spec fn artifact_params(
    a: ArtifactInfo,
    m: Map<Seq<char>, Seq<(Seq<char>, Seq<char>)>>,
    k: int,
) -> Map<Seq<char>, Seq<(Seq<char>, Seq<char>)>>
    decreases k,
{
    if k <= 0 {
        m
    } else {
        let m2 = artifact_params(a, m, k - 1);
        let f = a.abi_functions@[k - 1];
        match a.method_identifiers {
            Some(mi) => match crate::variables::key_index(mi@, abi_signature(f), 0) {
                Some(j) => if f.1@.len() > 0 {
                    m2.insert("0x"@ + mi@[j].1@, crate::variables::params_view(f.1@))
                } else {
                    m2
                },
                None => m2,
            },
            None => m2,
        }
    }
}

/// The signatures that the first `k` method identifiers of an artifact
/// add, each selector (`0x` and its digits) mapping to its signature.
pub open spec fn artifact_methods(mi: Seq<(String, String)>, m: Map<Seq<char>, Seq<char>>, k: int) -> Map<
    Seq<char>,
    Seq<char>,
>
    decreases k,
{
    if k <= 0 {
        m
    } else {
        artifact_methods(mi, m, k - 1).insert("0x"@ + mi[k - 1].1@, mi[k - 1].0@)
    }
}

/// The storage layouts, selectors and parameters that the first `n`
/// artifacts give, later artifacts overriding earlier ones: a layout is
/// kept when it has variables.
pub open spec fn metadata_after(arts: Seq<ArtifactInfo>, n: int) -> (
    Map<Seq<char>, StorageLayout>,
    Map<Seq<char>, Seq<char>>,
    Map<Seq<char>, Seq<(Seq<char>, Seq<char>)>>,
)
    decreases n,
{
    if n <= 0 {
        (Map::empty(), Map::empty(), Map::empty())
    } else {
        let prev = metadata_after(arts, n - 1);
        let a = arts[n - 1];
        let params = artifact_params(a, prev.2, a.abi_functions@.len() as int);
        let layouts = match a.storage_layout {
            Some(l) => if l.storage@.len() > 0 {
                prev.0.insert(a.contract_name@, l)
            } else {
                prev.0
            },
            None => prev.0,
        };
        let methods = match a.method_identifiers {
            Some(mi) => artifact_methods(mi@, prev.1, mi@.len() as int),
            None => prev.1,
        };
        (layouts, methods, params)
    }
}

/// The signature of an ABI function.
fn signature_of(f: &(String, Vec<(String, String)>)) -> (r: String)
    ensures
        r@ == abi_signature(*f),
{
    let mut o = crate::text::str_chars(f.0.as_str());
    crate::fmt::push_lit(&mut o, "(");
    let mut parts: Vec<Vec<char>> = Vec::new();
    let mut i: usize = 0;
    while i < f.1.len()
        invariant
            i <= f.1@.len(),
            parts@.len() == i,
            forall|x: int| 0 <= x < i ==> (#[trigger] parts@[x])@ == f.1@[x].1@,
        decreases f.1.len() - i,
    {
        parts.push(crate::text::str_chars(f.1[i].1.as_str()));
        i = i + 1;
    }
    let j = crate::fmt::join_strings(&parts, ",");
    assert(Seq::new(parts@.len(), |x: int| parts@[x]@) =~= Seq::new(f.1@.len(), |x: int| f.1@[x].1@));
    crate::fmt::push_chars(&mut o, &j);
    crate::fmt::push_lit(&mut o, ")");
    crate::fmt::string_of(&o)
}

/// A copy of a parameter list.
fn copy_params(p: &Vec<(String, String)>) -> (r: Vec<(String, String)>)
    ensures
        crate::variables::params_view(r@) == crate::variables::params_view(p@),
{
    let mut out: Vec<(String, String)> = Vec::new();
    let mut i: usize = 0;
    while i < p.len()
        invariant
            i <= p@.len(),
            out@.len() == i,
            forall|x: int| 0 <= x < i ==> (#[trigger] out@[x]).0@ == p@[x].0@ && out@[x].1@ == p@[x].1@,
        decreases p.len() - i,
    {
        out.push((p[i].0.clone(), p[i].1.clone()));
        i = i + 1;
    }
    assert(crate::variables::params_view(out@) =~= crate::variables::params_view(p@));
    out
}

/// `0x` followed by `s`.
fn prefixed(s: &String) -> (r: String)
    ensures
        r@ == "0x"@ + s@,
{
    let mut o = crate::fmt::lit_chars("0x");
    crate::fmt::push_string(&mut o, s);
    crate::fmt::string_of(&o)
}

/// The storage layouts (by contract), function signatures and parameters
/// (by selector, `0x` and 8 hexadecimal digits) that compiler artifacts
/// give.
pub fn artifact_metadata(artifacts: Vec<ArtifactInfo>) -> (r: (
    Vec<(String, StorageLayout)>,
    Vec<(String, String)>,
    Vec<(String, Vec<(String, String)>)>,
))
    ensures
        ({
            let m = metadata_after(artifacts@, artifacts@.len() as int);
            &&& pairs_map(r.0@, |l: StorageLayout| layout_id(l)) == m.0
            &&& pairs_map(r.1@, |s: String| string_view(s)) == m.1
            &&& pairs_map(r.2@, |p: Vec<(String, String)>| param_list_view(p)) == m.2
        }),
{
    let ghost all = artifacts@;
    let mut layouts: Vec<(String, StorageLayout)> = Vec::new();
    let mut methods: Vec<(String, String)> = Vec::new();
    let mut params: Vec<(String, Vec<(String, String)>)> = Vec::new();
    let mut rest = artifacts;
    let mut n: usize = 0;
    let total = rest.len();
    proof {
        assert(pairs_map(layouts@, |l: StorageLayout| layout_id(l)) =~= Map::empty());
        assert(pairs_map(methods@, |s: String| string_view(s)) =~= Map::empty());
        assert(pairs_map(params@, |p: Vec<(String, String)>| param_list_view(p)) =~= Map::empty());
    }
    while rest.len() > 0
        invariant
            all == artifacts@,
            total == all.len(),
            n + rest@.len() == total,
            forall|x: int| 0 <= x < rest@.len() ==> #[trigger] rest@[x] == all[n + x],
            ({
                let m = metadata_after(all, n as int);
                &&& pairs_map(layouts@, |l: StorageLayout| layout_id(l)) == m.0
                &&& pairs_map(methods@, |s: String| string_view(s)) == m.1
                &&& pairs_map(params@, |p: Vec<(String, String)>| param_list_view(p)) == m.2
            }),
        decreases rest.len(),
    {
        let art = rest.remove(0);
        let ghost a = art;
        assert(a == all[n as int]);
        let ghost prev = metadata_after(all, n as int);
        // Parameters by selector.
        let mut k: usize = 0;
        while k < art.abi_functions.len()
            invariant
                a == art,
                k <= art.abi_functions@.len(),
                pairs_map(params@, |p: Vec<(String, String)>| param_list_view(p)) == artifact_params(
                    a,
                    prev.2,
                    k as int,
                ),
            decreases art.abi_functions.len() - k,
        {
            let f = &art.abi_functions[k];
            match &art.method_identifiers {
                Some(mi) => {
                    let sig = signature_of(f);
                    match crate::variables::find_key(mi, &sig) {
                        Some(j) => {
                            if f.1.len() > 0 {
                                let key = prefixed(&mi[j].1);
                                let list = copy_params(&f.1);
                                let ghost old_params = params@;
                                let ghost kk = key;
                                let ghost ll = list;
                                insert_pair(&mut params, key, list);
                                proof {
                                    lemma_insert_map(old_params, params@, kk, ll, |p: Vec<(String, String)>| param_list_view(p));
                                }
                            }
                        },
                        None => {},
                    }
                },
                None => {},
            }
            k = k + 1;
        }
        // Methods by selector.
        match &art.method_identifiers {
            Some(mi) => {
                let mut k: usize = 0;
                while k < mi.len()
                    invariant
                        k <= mi@.len(),
                        pairs_map(methods@, |s: String| string_view(s)) == artifact_methods(
                            mi@,
                            prev.1,
                            k as int,
                        ),
                    decreases mi.len() - k,
                {
                    let key = prefixed(&mi[k].1);
                    let sig = mi[k].0.clone();
                    let ghost old_methods = methods@;
                    let ghost kk = key;
                    let ghost ss = sig;
                    insert_pair(&mut methods, key, sig);
                    proof {
                        lemma_insert_map(old_methods, methods@, kk, ss, |s: String| string_view(s));
                    }
                    k = k + 1;
                }
            },
            None => {},
        }
        // The layout, when it has variables.
        let ArtifactInfo { contract_name, storage_layout, method_identifiers: _, abi_functions: _, abi_events: _ } = art;
        match storage_layout {
            Some(l) => {
                if l.storage.len() > 0 {
                    let ghost old_layouts = layouts@;
                    let ghost kk = contract_name;
                    let ghost lv = l;
                    insert_pair(&mut layouts, contract_name, l);
                    proof {
                        lemma_insert_map(old_layouts, layouts@, kk, lv, |l: StorageLayout| layout_id(l));
                    }
                }
            },
            None => {},
        }
        n = n + 1;
    }
    (layouts, methods, params)
}

// ===================== Events of the ABI =====================

/// An event as the specification sees it: its name, and each parameter's
/// name, type and whether it is indexed.
pub type EventView = (Seq<char>, Seq<(Seq<char>, Seq<char>, bool)>);

/// The canonical signature of an event: its name and its parameter types,
/// as in `Transfer(address,address,uint256)`.
pub open spec fn event_signature(e: EventView) -> Seq<char> {
    e.0 + "("@ + join(e.1.map_values(|p: (Seq<char>, Seq<char>, bool)| p.1), ","@) + ")"@
}

/// The first topic of the logs of the event with signature `sig`: the
/// Keccak-256 hash of its UTF-8 bytes, as `0x` and 64 hexadecimal digits.
pub open spec fn event_topic(sig: Seq<char>) -> Seq<char> {
    "0x"@ + hex_bytes(keccak256_spec(encode_utf8(sig)))
}

/// The events of the first `k` artifacts, in order, each under its first
/// topic.
pub open spec fn abi_events_upto(artifacts: Seq<ArtifactInfo>, k: int) -> Seq<(Seq<char>, EventView)>
    decreases k,
{
    if k <= 0 || k > artifacts.len() {
        seq![]
    } else {
        abi_events_upto(artifacts, k - 1) + artifacts[k - 1].abi_events@.map_values(
            |e: EventInfo| (event_topic(event_signature(info_view(e))), info_view(e)),
        )
    }
}

/// The signature of event `e`.
fn event_signature_text(e: &EventInfo) -> (r: String)
    ensures
        r@ == event_signature(info_view(*e)),
{
    let mut types: Vec<Vec<char>> = Vec::new();
    let mut i: usize = 0;
    while i < e.params.len()
        invariant
            i <= e.params@.len(),
            types@.len() == i,
            forall|k: int| 0 <= k < i ==> (#[trigger] types@[k])@ == e.params@[k].type_field@,
        decreases e.params.len() - i,
    {
        types.push(str_chars(e.params[i].type_field.as_str()));
        i = i + 1;
    }
    let mut out = str_chars(e.name.as_str());
    push_lit(&mut out, "(");
    let joined = join_strings(&types, ",");
    push_chars(&mut out, &joined);
    push_lit(&mut out, ")");
    proof {
        assert(Seq::new(types@.len(), |k: int| types@[k]@) =~= info_view(*e).1.map_values(
            |p: (Seq<char>, Seq<char>, bool)| p.1,
        ));
    }
    string_of(&out)
}

/// The first topic of the logs of event `e`, under which its decoding is
/// looked up.
pub fn event_topic_of(e: &EventInfo) -> (r: String)
    ensures
        r@ == event_topic(event_signature(info_view(*e))),
{
    let sig = event_signature_text(e);
    let bytes = sig.as_str().as_bytes();
    let hash = keccak256(bytes);
    let digits = hex_bytes_chars(hash.as_slice());
    let mut out = lit_chars("0x");
    push_chars(&mut out, &digits);
    string_of(&out)
}

/// The events of the artifacts' ABIs, each under its first topic, in the
/// order of the artifacts.
pub fn artifact_events(artifacts: &Vec<ArtifactInfo>) -> (r: Vec<(String, EventInfo)>)
    ensures
        r@.map_values(|p: (String, EventInfo)| (p.0@, info_view(p.1))) == abi_events_upto(
            artifacts@,
            artifacts@.len() as int,
        ),
{
    let mut out: Vec<(String, EventInfo)> = Vec::new();
    let mut k: usize = 0;
    while k < artifacts.len()
        invariant
            k <= artifacts@.len(),
            out@.map_values(|p: (String, EventInfo)| (p.0@, info_view(p.1))) == abi_events_upto(
                artifacts@,
                k as int,
            ),
        decreases artifacts.len() - k,
    {
        let events = &artifacts[k].abi_events;
        let ghost before = out@.map_values(|p: (String, EventInfo)| (p.0@, info_view(p.1)));
        let ghost mapped = events@.map_values(
            |e: EventInfo| (event_topic(event_signature(info_view(e))), info_view(e)),
        );
        let mut j: usize = 0;
        while j < events.len()
            invariant
                k < artifacts@.len(),
                events@ == artifacts@[k as int].abi_events@,
                j <= events@.len(),
                mapped == events@.map_values(
                    |e: EventInfo| (event_topic(event_signature(info_view(e))), info_view(e)),
                ),
                out@.map_values(|p: (String, EventInfo)| (p.0@, info_view(p.1))) == before
                    + mapped.subrange(0, j as int),
            decreases events.len() - j,
        {
            let topic = event_topic_of(&events[j]);
            let info = duplicate_info(&events[j]);
            let ghost prev = out@;
            out.push((topic, info));
            proof {
                assert(out@.map_values(|p: (String, EventInfo)| (p.0@, info_view(p.1))) =~= prev.map_values(
                    |p: (String, EventInfo)| (p.0@, info_view(p.1)),
                ).push(mapped[j as int]));
                assert(mapped.subrange(0, j + 1) =~= mapped.subrange(0, j as int).push(mapped[j as int]));
            }
            j = j + 1;
        }
        proof {
            assert(mapped.subrange(0, events@.len() as int) =~= mapped);
        }
        k = k + 1;
    }
    out
}

} // verus!
