//! Reading the action's inputs: the names they are looked up under, and the
//! checks on the values found.
use crate::text::{replace_text, replaced, split_once_text, trim_text, trimmed, uppercase_text, uppercased};
use vstd::prelude::*;
use vstd::string::StringExecFns;

verus! {

/// The variable an input named `name` is passed in.
pub open spec fn input_key_text(name: Seq<char>) -> Seq<char> {
    "INPUT_"@ + uppercased(replaced(name, " "@, "_"@))
}

/// The variable that holds the input `name`: `INPUT_`, then the name with
/// spaces made underscores, in upper case.
pub fn input_key(name: &str) -> (r: String)
    ensures
        r@ == input_key_text(name@),
{
    let spaced = replace_text(name, " ", "_");
    let upper = uppercase_text(spaced.as_str());
    let mut key = String::from_str("INPUT_");
    key.append(upper.as_str());
    key
}

/// The second variable tried for an input: the key with dashes made
/// underscores, when that differs from the key.
pub fn alternate_input_key(key: &str) -> (r: Option<String>)
    ensures
        r matches Some(t) ==> t@ == replaced(key@, "-"@, "_"@) && t@ != key@,
        r is None ==> replaced(key@, "-"@, "_"@) == key@,
{
    let alternate = replace_text(key, "-", "_");
    let unchanged = String::from_str(key);
    if alternate == unchanged {
        None
    } else {
        Some(alternate)
    }
}

/// A required input that was absent or blank.
#[derive(Clone, Debug)]
pub struct MissingInput {
    pub name: String,
}

impl MissingInput {
    pub fn message(&self) -> (r: String)
        ensures
            r@ == "Missing required input: "@ + self.name@,
    {
        let mut m = String::from_str("Missing required input: ");
        m.append(self.name.as_str());
        m
    }
}

/// A required input's value, trimmed; absent or blank is an error naming the input.
pub fn required_input(name: &str, value: Option<String>) -> (r: Result<String, MissingInput>)
    ensures
        match value {
            Some(v) if trimmed(v@).len() > 0 => r matches Ok(t) && t@ == trimmed(v@),
            _ => r matches Err(e) && e.name@ == name@,
        },
{
    match value {
        Some(v) => {
            let t = trim_text(v.as_str());
            if t.is_empty() {
                Err(MissingInput { name: String::from_str(name) })
            } else {
                Ok(String::from_str(t))
            }
        },
        None => Err(MissingInput { name: String::from_str(name) }),
    }
}

/// Owner and name of a repository given as `owner/name`: the text before the
/// first `/` and the text after it, both non-empty.
pub fn parse_repository(repository: &str) -> (r: Option<(String, String)>)
    ensures
        match r {
            Some((owner, repo)) => repository@ == owner@ + seq!['/'] + repo@ && !owner@.contains('/')
                && owner@.len() > 0 && repo@.len() > 0,
            None => !repository@.contains('/') || exists|a: Seq<char>, b: Seq<char>|
                repository@ == a + seq!['/'] + b && !a.contains('/') && (a.len() == 0 || b.len() == 0),
        },
{
    match split_once_text(repository, '/') {
        Some((owner, repo)) => {
            if owner.is_empty() || repo.is_empty() {
                None
            } else {
                Some((String::from_str(owner), String::from_str(repo)))
            }
        },
        None => None,
    }
}

} // verus!
