//! Splitting an interactive command line into arguments.

use vstd::prelude::*;
use crate::function::FunctionParam;
use crate::json::JsonValue;
use crate::registry::lookup;
use crate::text::{is_whitespace, is_ws, push_char, str_eq, trim, trim_ws};

verus! {

/// What the splitter has gathered so far: finished arguments, the argument
/// being read, and the quote that is open, if any.
pub struct SplitState {
    pub parts: Seq<Seq<char>>,
    pub current: Seq<char>,
    pub quote: Option<char>,
}

/// Reads one character: a quote opens or closes a group, whitespace outside
/// a group ends an argument, any other character joins the current one.
pub open spec fn split_step(st: SplitState, ch: char) -> SplitState {
    if st.quote is None && (ch == '"' || ch == '\'') {
        SplitState { quote: Some(ch), ..st }
    } else if st.quote == Some(ch) {
        SplitState { quote: None, ..st }
    } else if st.quote is None && is_ws(ch) {
        if st.current.len() > 0 {
            SplitState { parts: st.parts.push(st.current), current: Seq::empty(), ..st }
        } else {
            st
        }
    } else {
        SplitState { current: st.current.push(ch), ..st }
    }
}

pub open spec fn split_run(s: Seq<char>) -> SplitState
    decreases s.len(),
{
    if s.len() == 0 {
        SplitState { parts: Seq::empty(), current: Seq::empty(), quote: None }
    } else {
        split_step(split_run(s.drop_last()), s.last())
    }
}

/// The arguments of a line: whitespace-separated, with single- or
/// double-quoted groups kept together.
pub open spec fn split_args(s: Seq<char>) -> Seq<Seq<char>> {
    let st = split_run(s);
    if st.current.len() > 0 { st.parts.push(st.current) } else { st.parts }
}

/// Splits a command line into arguments, honouring single and double quotes.
pub fn parse_quoted_args(line: &str) -> (r: Vec<String>)
    ensures
        r@.map_values(|s: String| s@) == split_args(trim_ws(line@)),
{
    split_quoted_args(trim(line))
}

/// Splits text into arguments at whitespace, keeping single- or
/// double-quoted groups together.
pub fn split_quoted_args(t: &str) -> (r: Vec<String>)
    ensures
        r@.map_values(|s: String| s@) == split_args(t@),
{
    let n = t.unicode_len();
    let mut parts: Vec<String> = Vec::new();
    let mut current = String::new();
    let mut quote: Option<char> = None;
    let mut i: usize = 0;
    while i < n
        invariant
            n == t@.len(),
            i <= n,
            ({
                let st = split_run(t@.subrange(0, i as int));
                &&& parts@.map_values(|s: String| s@) == st.parts
                &&& current@ == st.current
                &&& quote == st.quote
            }),
        decreases n - i,
    {
        let ch = t.get_char(i);
        assert(t@.subrange(0, i as int + 1).drop_last() =~= t@.subrange(0, i as int));
        match quote {
            None if ch == '"' || ch == '\'' => {
                quote = Some(ch);
            },
            Some(q) if q == ch => {
                quote = None;
            },
            None if is_whitespace(ch) => {
                if current.unicode_len() > 0 {
                    let ghost before = parts@;
                    parts.push(current);
                    current = String::new();
                    assert(parts@.map_values(|s: String| s@) =~= before.map_values(|s: String| s@).push(parts@.last()@));
                }
            },
            _ => {
                push_char(&mut current, ch);
            },
        }
        i = i + 1;
    }
    assert(t@.subrange(0, n as int) =~= t@);
    if current.unicode_len() > 0 {
        let ghost before = parts@;
        parts.push(current);
        assert(parts@.map_values(|s: String| s@) =~= before.map_values(|s: String| s@).push(parts@.last()@));
    }
    parts
}

/// A command of the interactive session.
#[derive(Debug)]
pub enum Command {
    List,
    Describe { target: String },
    Invoke { target: String, args: Vec<String> },
    Help,
    Exit,
    /// A known command given without its target.
    Usage(String),
    Unknown,
    Empty,
}

/// Reads the words of a line as a command.
pub fn parse_command(parts: &Vec<String>) -> (r: Command)
    ensures
        parts@.len() == 0 ==> r is Empty,
        parts@.len() > 0 ==> {
            let word = parts@[0]@;
            if word == "list"@ {
                r is List
            } else if word == "describe"@ {
                if parts@.len() > 1 {
                    r matches Command::Describe { target } && target@ == parts@[1]@
                } else {
                    r matches Command::Usage(w) && w@ == word
                }
            } else if word == "invoke"@ {
                if parts@.len() > 1 {
                    r matches Command::Invoke { target, args } && target@ == parts@[1]@
                        && args@ == parts@.subrange(2, parts@.len() as int)
                } else {
                    r matches Command::Usage(w) && w@ == word
                }
            } else if word == "help"@ {
                r is Help
            } else if word == "exit"@ || word == "quit"@ {
                r is Exit
            } else {
                r is Unknown
            }
        },
{
    if parts.len() == 0 {
        return Command::Empty;
    }
    let word = parts[0].as_str();
    if str_eq(word, "list") {
        Command::List
    } else if str_eq(word, "describe") {
        if parts.len() > 1 {
            Command::Describe { target: parts[1].clone() }
        } else {
            Command::Usage(parts[0].clone())
        }
    } else if str_eq(word, "invoke") {
        if parts.len() > 1 {
            let mut args: Vec<String> = Vec::new();
            let mut i: usize = 2;
            while i < parts.len()
                invariant
                    2 <= i <= parts@.len(),
                    args@ == parts@.subrange(2, i as int),
                decreases parts@.len() - i,
            {
                args.push(parts[i].clone());
                i = i + 1;
                assert(args@ =~= parts@.subrange(2, i as int));
            }
            Command::Invoke { target: parts[1].clone(), args }
        } else {
            Command::Usage(parts[0].clone())
        }
    } else if str_eq(word, "help") {
        Command::Help
    } else if str_eq(word, "exit") || str_eq(word, "quit") {
        Command::Exit
    } else {
        Command::Unknown
    }
}

/// Whether a parameter's schema says it takes a string.
pub open spec fn wants_string(p: FunctionParam) -> bool {
    p.json_schema matches JsonValue::Object(members)
        && (lookup(members@, "type"@) matches Some(t) && (t matches JsonValue::Str(s) && s@ == "string"@))
}

/// One argument as typed: its text, and the JSON value the text reads as, if any.
#[derive(Debug)]
pub struct TypedArg {
    pub text: String,
    pub parsed: Option<JsonValue>,
}

/// Why the arguments of a command do not fit the function.
#[derive(Debug)]
pub enum ArgError {
    TooMany { expected: usize, got: usize },
    MissingRequired(String),
}

/// The value an argument gives: what its text reads as (else the text as a
/// string), and the text itself where the parameter takes a string but the
/// text reads as something else.
pub open spec fn arg_value_ok(p: FunctionParam, a: TypedArg, v: JsonValue) -> bool {
    match a.parsed {
        Some(JsonValue::Str(s)) => v matches JsonValue::Str(t) && t@ == s@,
        Some(j) => if wants_string(p) { v matches JsonValue::Str(t) && t@ == a.text@ } else { v == j },
        None => v matches JsonValue::Str(t) && t@ == a.text@,
    }
}

fn wants_string_exec(p: &FunctionParam) -> (r: bool)
    ensures
        r == wants_string(*p),
{
    match &p.json_schema {
        JsonValue::Object(members) => {
            proof {
                crate::registry::lemma_entry_index(members@, "type"@);
            }
            match crate::registry::find_entry(members, "type") {
                Some(i) => match &members[i].1 {
                    JsonValue::Str(s) => str_eq(s.as_str(), "string"),
                    _ => false,
                },
                None => false,
            }
        },
        _ => false,
    }
}

/// The arguments of an interactive call, one per parameter: each typed
/// argument as `arg_value_ok` says, then null for each missing trailing
/// parameter that is optional. Too many arguments, or a missing required
/// parameter, is an error.
pub fn prepare_args(params: &Vec<FunctionParam>, typed: Vec<TypedArg>) -> (r: Result<Vec<JsonValue>, ArgError>)
    ensures
        typed@.len() > params@.len() ==> (r matches Err(ArgError::TooMany { expected, got })
            && expected == params@.len() && got == typed@.len()),
        typed@.len() <= params@.len() ==> match r {
            Ok(values) => {
                &&& values@.len() == params@.len()
                &&& forall|i: int| 0 <= i < typed@.len() ==> arg_value_ok(params@[i], typed@[i], #[trigger] values@[i])
                &&& forall|i: int| typed@.len() <= i < params@.len() ==> (#[trigger] params@[i]).is_optional
                    && values@[i] == JsonValue::Null
            },
            Err(ArgError::MissingRequired(name)) => exists|i: int| typed@.len() <= i < params@.len()
                && !(#[trigger] params@[i]).is_optional && params@[i].name@ == name@,
            Err(_) => false,
        },
{
    if typed.len() > params.len() {
        return Err(ArgError::TooMany { expected: params.len(), got: typed.len() });
    }
    let ghost args0 = typed@;
    let n = typed.len();
    let mut args = typed;
    let mut values: Vec<JsonValue> = Vec::new();
    let mut i: usize = 0;
    while args.len() > 0
        invariant
            args0 == typed@,
            n == args0.len(),
            n <= params@.len(),
            i + args@.len() == n,
            args@ == args0.subrange(i as int, n as int),
            values@.len() == i,
            forall|k: int| 0 <= k < i ==> arg_value_ok(params@[k], args0[k], #[trigger] values@[k]),
        decreases args@.len(),
    {
        let a = args.remove(0);
        assert(a == args0[i as int]);
        let wants = wants_string_exec(&params[i]);
        let v = match a.parsed {
            Some(JsonValue::Str(s)) => JsonValue::Str(s),
            Some(j) => if wants { JsonValue::Str(a.text) } else { j },
            None => JsonValue::Str(a.text),
        };
        values.push(v);
        i = i + 1;
        assert(args@ =~= args0.subrange(i as int, n as int));
    }
    while i < params.len()
        invariant
            args0 == typed@,
            n == args0.len(),
            n <= i <= params@.len(),
            values@.len() == i,
            forall|k: int| 0 <= k < n ==> arg_value_ok(params@[k], args0[k], #[trigger] values@[k]),
            forall|k: int| n <= k < i ==> (#[trigger] params@[k]).is_optional && values@[k] == JsonValue::Null,
        decreases params@.len() - i,
    {
        if !params[i].is_optional {
            return Err(ArgError::MissingRequired(params[i].name.clone()));
        }
        values.push(JsonValue::Null);
        i = i + 1;
    }
    Ok(values)
}

} // verus!
