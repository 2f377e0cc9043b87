//! Small helpers on integers and strings.

use vstd::prelude::*;

verus! {

/// `String::push` of std appends the given character to the end of the string
/// and leaves the rest as it was.
pub assume_specification[ String::push ](s: &mut String, ch: char)
    ensures
        final(s)@ == old(s)@.push(ch),
;

/// `String::push_str` of std appends the given string slice to the end of the
/// string and leaves the rest as it was.
pub assume_specification[ String::push_str ](s: &mut String, string: &str)
    ensures
        final(s)@ == old(s)@ + string@,
;

/// The sum of two integers that fits in an `i32`.
pub fn add(first: i32, second: i32) -> (sum: i32)
    requires
        i32::MIN <= first + second <= i32::MAX,
    ensures
        sum == first + second,
{
    first + second
}

/// Appends the letter `a` to `name`.
pub fn append_a(name: &mut String)
    ensures
        final(name)@ == old(name)@.push('a'),
{
    name.push('a');
}

/// The greeting for `name`: `Hello, `, the name, and an exclamation mark.
pub fn greeting(name: &str) -> (line: String)
    ensures
        line@ == "Hello, "@ + name@ + "!"@,
{
    let mut line = "Hello, ".to_owned();
    line.push_str(name);
    line.push('!');
    proof {
        reveal_strlit("!");
        assert(line@ =~= "Hello, "@ + name@ + "!"@);
    }
    line
}

} // verus!
