//! Pure discovery and expansion of structured argument placeholders.

use vstd::prelude::*;
use crate::contracts::config::ParameterValue;
use crate::text::{extend_strings, entry_of, lemma_sorted_distinct, find_key, insert_sorted, keys_of, owned, strictly_sorted, views, Keyed};

verus! {

/// An ASCII lowercase letter.
pub open spec fn is_lower(c: char) -> bool {
    'a' <= c <= 'z'
}

/// An ASCII digit.
pub open spec fn is_digit(c: char) -> bool {
    '0' <= c <= '9'
}

/// One of the identifier segment separators `.`, `_` and `-`.
pub open spec fn is_separator(c: char) -> bool {
    c == '.' || c == '_' || c == '-'
}

/// The configuration identifier grammar: lowercase segments of letters and
/// digits separated by single `.`, `_` or `-`, starting with a letter and at
/// most 96 characters long.
pub open spec fn valid_identifier(s: Seq<char>) -> bool {
    &&& 0 < s.len() <= 96
    &&& is_lower(s[0])
    &&& forall|i: int| 0 <= i < s.len() ==> is_lower(#[trigger] s[i]) || is_digit(s[i]) || is_separator(s[i])
    &&& !is_separator(s[s.len() - 1])
    &&& forall|i: int| 0 <= i < s.len() - 1 ==> !(is_separator(#[trigger] s[i]) && is_separator(s[i + 1]))
}

fn char_is_lower(c: char) -> (r: bool)
    ensures
        r == is_lower(c),
{
    'a' <= c && c <= 'z'
}

fn char_is_digit(c: char) -> (r: bool)
    ensures
        r == is_digit(c),
{
    '0' <= c && c <= '9'
}

fn char_is_separator(c: char) -> (r: bool)
    ensures
        r == is_separator(c),
{
    c == '.' || c == '_' || c == '-'
}

/// Applies the identifier grammar shared by configuration IDs and placeholders.
pub fn valid_name(value: &str) -> (r: bool)
    ensures
        r == valid_identifier(value@),
{
    let n = value.unicode_len();
    if n == 0 || n > 96 {
        return false;
    }
    if !char_is_lower(value.get_char(0)) {
        return false;
    }
    let mut i: usize = 0;
    while i < n
        invariant
            n == value@.len(),
            0 < n <= 96,
            is_lower(value@[0]),
            i <= n,
            forall|k: int| 0 <= k < i ==> is_lower(#[trigger] value@[k]) || is_digit(value@[k]) || is_separator(value@[k]),
            forall|k: int| 0 <= k < i - 1 ==> !(is_separator(#[trigger] value@[k]) && is_separator(value@[k + 1])),
        decreases n - i,
    {
        let c = value.get_char(i);
        if !(char_is_lower(c) || char_is_digit(c) || char_is_separator(c)) {
            return false;
        }
        if i > 0 && char_is_separator(c) && char_is_separator(value.get_char(i - 1)) {
            assert(is_separator(value@[i - 1]) && is_separator(value@[(i - 1) + 1]));
            return false;
        }
        i = i + 1;
    }
    !char_is_separator(value.get_char(n - 1))
}

/// The name an argument reserves when it is exactly `{name}` with a valid name.
pub open spec fn placeholder_of(argument: Seq<char>) -> Option<Seq<char>> {
    if argument.len() >= 2 && argument[0] == '{' && argument[argument.len() - 1] == '}'
        && valid_identifier(argument.subrange(1, argument.len() - 1)) {
        Some(argument.subrange(1, argument.len() - 1))
    } else {
        None
    }
}

/// Returns the name represented by an exact `{name}` argument placeholder.
pub fn placeholder_name(argument: &str) -> (r: Option<&str>)
    ensures
        r matches Some(name) ==> placeholder_of(argument@) == Some(name@),
        r is None ==> placeholder_of(argument@) is None,
{
    let n = argument.unicode_len();
    if n < 2 || argument.get_char(0) != '{' || argument.get_char(n - 1) != '}' {
        return None;
    }
    let name = argument.substring_char(1, n - 1);
    if valid_name(name) {
        Some(name)
    } else {
        None
    }
}

/// The set of placeholder names declared by an argument template.
pub open spec fn declared_placeholders(arguments: Seq<String>) -> Set<Seq<char>> {
    Set::new(|name: Seq<char>| exists|i: int| 0 <= i < arguments.len() && placeholder_of(#[trigger] arguments[i]@) == Some(name))
}

/// Discovers every placeholder declared implicitly by a check argument vector,
/// in ascending order without repetition.
pub fn placeholder_names(arguments: &[String]) -> (r: Vec<String>)
    ensures
        strictly_sorted(keys_of(r@)),
        forall|name: Seq<char>| keys_of(r@).contains(name) <==> declared_placeholders(arguments@).contains(name),
{
    let mut names: Vec<String> = Vec::new();
    let mut i: usize = 0;
    while i < arguments.len()
        invariant
            i <= arguments@.len(),
            strictly_sorted(keys_of(names@)),
            forall|name: Seq<char>| keys_of(names@).contains(name) <==> exists|k: int| 0 <= k < i && placeholder_of(#[trigger] arguments@[k]@) == Some(name),
        decreases arguments@.len() - i,
    {
        match placeholder_name(arguments[i].as_str()) {
            Some(name) => {
                let ghost before = names@;
                insert_sorted(&mut names, owned(name));
                assert forall|x: Seq<char>| keys_of(names@).contains(x) <==> exists|k: int| 0 <= k < i + 1 && placeholder_of(#[trigger] arguments@[k]@) == Some(x) by {
                    if keys_of(before).contains(x) {
                        let k = choose|k: int| 0 <= k < i && placeholder_of(#[trigger] arguments@[k]@) == Some(x);
                    }
                    if exists|k: int| 0 <= k < i + 1 && placeholder_of(#[trigger] arguments@[k]@) == Some(x) {
                        let k = choose|k: int| 0 <= k < i + 1 && placeholder_of(#[trigger] arguments@[k]@) == Some(x);
                        if k < i {
                            assert(keys_of(before).contains(x));
                        }
                    }
                }
            },
            None => {
                assert forall|x: Seq<char>| keys_of(names@).contains(x) <==> exists|k: int| 0 <= k < i + 1 && placeholder_of(#[trigger] arguments@[k]@) == Some(x) by {
                    if exists|k: int| 0 <= k < i + 1 && placeholder_of(#[trigger] arguments@[k]@) == Some(x) {
                        let k = choose|k: int| 0 <= k < i + 1 && placeholder_of(#[trigger] arguments@[k]@) == Some(x);
                        assert(k < i);
                    }
                }
            },
        }
        i = i + 1;
    }
    names
}

/// The arguments a bound parameter value emits.
pub open spec fn value_arguments(value: ParameterValue) -> Seq<Seq<char>> {
    match value {
        ParameterValue::Single(s) => seq![s@],
        ParameterValue::Multiple(values) => views(values@),
    }
}

/// The value bound to `name`, if any.
pub open spec fn bound_value(parameters: Seq<(String, ParameterValue)>, name: Seq<char>) -> Option<ParameterValue> {
    if keys_of(parameters).contains(name) {
        Some(parameters[entry_of(parameters, name)].1)
    } else {
        None
    }
}

/// The arguments one template argument expands to.
pub open spec fn argument_expansion(argument: Seq<char>, parameters: Seq<(String, ParameterValue)>) -> Seq<Seq<char>> {
    match placeholder_of(argument) {
        None => seq![argument],
        Some(name) => match bound_value(parameters, name) {
            Some(value) => value_arguments(value),
            None => Seq::empty(),
        },
    }
}

/// The complete expansion of a template: each argument's expansion, in order.
pub open spec fn expansion(arguments: Seq<String>, parameters: Seq<(String, ParameterValue)>) -> Seq<Seq<char>>
    decreases arguments.len(),
{
    if arguments.len() == 0 {
        Seq::empty()
    } else {
        expansion(arguments.drop_last(), parameters) + argument_expansion(arguments.last()@, parameters)
    }
}

/// Expands placeholders without shell parsing or recursive interpolation.
///
/// A bound single value emits one argument, a bound sequence emits its
/// values in order, an unbound placeholder emits nothing, and every other
/// argument is copied literally.
pub fn expand(arguments: &[String], parameters: &Vec<(String, ParameterValue)>) -> (r: Vec<String>)
    requires
        strictly_sorted(keys_of(parameters@)),
    ensures
        views(r@) == expansion(arguments@, parameters@),
{
    let mut expanded: Vec<String> = Vec::new();
    let mut i: usize = 0;
    while i < arguments.len()
        invariant
            i <= arguments@.len(),
            strictly_sorted(keys_of(parameters@)),
            views(expanded@) == expansion(arguments@.take(i as int), parameters@),
        decreases arguments@.len() - i,
    {
        assert(arguments@.take(i + 1).drop_last() =~= arguments@.take(i as int));
        let ghost before = views(expanded@);
        match placeholder_name(arguments[i].as_str()) {
            None => {
                expanded.push(arguments[i].clone());
                assert(views(expanded@) =~= before + seq![arguments@[i as int]@]);
            },
            Some(name) => {
                match find_key(parameters, name) {
                    Some(e) => {
                        proof {
                            let f = entry_of(parameters@, name@);
                            assert(keys_of(parameters@)[e as int] == name@);
                            if f != e as int {
                                lemma_sorted_distinct(keys_of(parameters@), f, e as int);
                            }
                        }
                        match &parameters[e].1 {
                            ParameterValue::Single(value) => {
                                expanded.push(value.clone());
                                assert(views(expanded@) =~= before + seq![value@]);
                            },
                            ParameterValue::Multiple(values) => {
                                extend_strings(&mut expanded, values);
                            },
                        }
                    },
                    None => {
                        assert(views(expanded@) =~= before + Seq::<Seq<char>>::empty());
                    },
                }
            },
        }
        i = i + 1;
    }
    assert(arguments@.take(arguments@.len() as int) =~= arguments@);
    expanded
}

} // verus!
