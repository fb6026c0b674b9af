//! The text commands of the game's prompt: splitting and recognizing them.
use vstd::prelude::*;
use vstd::string::StrSliceExecFns;

verus! {

/// Whether `c` has the Unicode `White_Space` property.
pub uninterp spec fn white_space(c: char) -> bool;

/// Relies on `char::is_whitespace`: true exactly for the characters with the
/// Unicode `White_Space` property, the same set that `str::trim` strips.
#[verifier::external_body]
fn is_white_space(c: char) -> (r: bool)
    ensures
        r == white_space(c),
{
    c.is_whitespace()
}

/// `s` without its leading white space.
pub open spec fn trim_start_spec(s: Seq<char>) -> Seq<char>
    decreases s.len(),
{
    if s.len() > 0 && white_space(s[0]) {
        trim_start_spec(s.drop_first())
    } else {
        s
    }
}

/// `s` without its trailing white space.
pub open spec fn trim_end_spec(s: Seq<char>) -> Seq<char>
    decreases s.len(),
{
    if s.len() > 0 && white_space(s.last()) {
        trim_end_spec(s.drop_last())
    } else {
        s
    }
}

/// `s` without leading and trailing white space.
pub open spec fn trim_spec(s: Seq<char>) -> Seq<char> {
    trim_end_spec(trim_start_spec(s))
}

/// `s` without leading and trailing white space.
pub fn trim(s: &str) -> (r: &str)
    ensures
        r@ == trim_spec(s@),
{
    let n = s.unicode_len();
    let mut i: usize = 0;
    assert(s@.subrange(0, n as int) =~= s@);
    while i < n && is_white_space(s.get_char(i))
        invariant
            n == s@.len(),
            i <= n,
            trim_start_spec(s@) == trim_start_spec(s@.subrange(i as int, n as int)),
        decreases n - i,
    {
        assert(s@.subrange(i as int, n as int).drop_first() =~= s@.subrange(i + 1, n as int));
        i = i + 1;
    }
    let ghost t = s@.subrange(i as int, n as int);
    assert(trim_start_spec(t) == t);
    let mut j: usize = n;
    while j > i && is_white_space(s.get_char(j - 1))
        invariant
            n == s@.len(),
            i <= j <= n,
            t == s@.subrange(i as int, n as int),
            trim_end_spec(t) == trim_end_spec(s@.subrange(i as int, j as int)),
        decreases j,
    {
        assert(s@.subrange(i as int, j as int).drop_last() =~= s@.subrange(i as int, j - 1));
        j = j - 1;
    }
    s.substring_char(i, j)
}

/// Whether `a` and `b` hold the same characters.
pub fn same_text(a: &str, b: &str) -> (r: bool)
    ensures
        r == (a@ == b@),
{
    let n = a.unicode_len();
    if n != b.unicode_len() {
        return false;
    }
    let mut i: usize = 0;
    while i < n
        invariant
            n == a@.len(),
            n == b@.len(),
            i <= n,
            a@.subrange(0, i as int) == b@.subrange(0, i as int),
        decreases n - i,
    {
        if a.get_char(i) != b.get_char(i) {
            return false;
        }
        assert(a@.subrange(0, i + 1) =~= a@.subrange(0, i as int).push(a@[i as int]));
        assert(b@.subrange(0, i + 1) =~= b@.subrange(0, i as int).push(b@[i as int]));
        i = i + 1;
    }
    assert(a@ =~= a@.subrange(0, n as int));
    assert(b@ =~= b@.subrange(0, n as int));
    true
}

/// Whether `string` begins with `begin`.
pub fn starts_with(string: &str, begin: &str) -> (r: bool)
    ensures
        r == begin@.is_prefix_of(string@),
{
    let n = begin.unicode_len();
    if string.unicode_len() < n {
        return false;
    }
    let mut i: usize = 0;
    while i < n
        invariant
            n == begin@.len(),
            n <= string@.len(),
            i <= n,
            begin@.subrange(0, i as int) == string@.subrange(0, i as int),
        decreases n - i,
    {
        if begin.get_char(i) != string.get_char(i) {
            return false;
        }
        assert(begin@.subrange(0, i + 1) =~= begin@.subrange(0, i as int).push(begin@[i as int]));
        assert(string@.subrange(0, i + 1) =~= string@.subrange(0, i as int).push(string@[i as int]));
        i = i + 1;
    }
    assert(begin@ =~= begin@.subrange(0, n as int));
    true
}

/// `i` is the position of the first `=` in `s`.
pub open spec fn first_equals_at(s: Seq<char>, i: int) -> bool {
    &&& 0 <= i < s.len()
    &&& s[i] == '='
    &&& forall|j: int| 0 <= j < i ==> s[j] != '='
}

/// The key and the value of a setting `key = value`: the text before and after
/// the first `=`, without surrounding white space, neither of them empty.
pub open spec fn setting_parts(s: Seq<char>) -> Option<(Seq<char>, Seq<char>)> {
    if exists|i: int| first_equals_at(s, i) {
        let i = choose|i: int| first_equals_at(s, i);
        let key = trim_spec(s.subrange(0, i));
        let value = trim_spec(s.subrange(i + 1, s.len() as int));
        if key.len() > 0 && value.len() > 0 {
            Some((key, value))
        } else {
            None
        }
    } else {
        None
    }
}

/// Splits a setting `key = value` into its key and its value.
pub fn get_values(string: &str) -> (r: Result<(&str, &str), ()>)
    ensures
        r is Ok <==> setting_parts(string@) is Some,
        r matches Ok((key, value)) ==> setting_parts(string@) == Some((key@, value@)),
{
    let n = string.unicode_len();
    let mut i: usize = 0;
    while i < n && string.get_char(i) != '='
        invariant
            n == string@.len(),
            i <= n,
            forall|j: int| 0 <= j < i ==> string@[j] != '=',
        decreases n - i,
    {
        i = i + 1;
    }
    if i == n {
        assert(!exists|k: int| first_equals_at(string@, k));
        return Err(());
    }
    proof {
        assert(first_equals_at(string@, i as int));
        assert forall|k: int| first_equals_at(string@, k) implies k == i by {
            if k < i {
                assert(string@[k] != '=');
            } else if k > i {
                assert(string@[i as int] != '=');
            }
        }
    }
    let key = trim(string.substring_char(0, i));
    let value = trim(string.substring_char(i + 1, n));
    if key.unicode_len() == 0 || value.unicode_len() == 0 {
        Err(())
    } else {
        Ok((key, value))
    }
}

/// The message given for a value that is neither `true` nor `false`.
pub const NOT_A_BOOLEAN: &'static str = "I do apologize, but I was expecting a boolean value!";

/// Reads `true` or `false`.
pub fn parse_bool(value: &str) -> (r: Result<bool, &'static str>)
    ensures
        r == Ok::<bool, &'static str>(true) <==> value@ == "true"@,
        r == Ok::<bool, &'static str>(false) <==> value@ == "false"@,
        r is Err <==> value@ != "true"@ && value@ != "false"@,
{
    proof {
        reveal_strlit("true");
        reveal_strlit("false");
        assert("true"@[0] != "false"@[0]);
    }
    if same_text(value, "true") {
        Ok(true)
    } else if same_text(value, "false") {
        Ok(false)
    } else {
        Err(NOT_A_BOOLEAN)
    }
}

/// A command entered at the prompt.
#[derive(Debug, PartialEq, Eq)]
pub enum Action {
    /// Walk through an example game.
    Example,
    /// List the commands.
    Help,
    /// Play a game.
    Begin,
    /// Change a parameter; holds the text after `set `.
    Setting(String),
    /// Leave.
    Quit,
    /// Anything else; holds the trimmed input.
    Invalid(String),
}

/// `t` is one of the commands that take no argument.
pub open spec fn is_plain_command(t: Seq<char>) -> bool {
    t == "example"@ || t == "help"@ || t == "begin"@ || t == "quit"@
}

/// The command that a line of input asks for, white space around it ignored.
pub fn parse_action(input: &str) -> (r: Action)
    ensures
        trim_spec(input@) == "example"@ ==> r is Example,
        trim_spec(input@) == "help"@ ==> r is Help,
        trim_spec(input@) == "begin"@ ==> r is Begin,
        trim_spec(input@) == "quit"@ ==> r is Quit,
        !is_plain_command(trim_spec(input@)) && "set "@.is_prefix_of(trim_spec(input@)) ==> (r matches Action::Setting(rest) && rest@ == trim_spec(input@).skip(4)),
        !is_plain_command(trim_spec(input@)) && !"set "@.is_prefix_of(trim_spec(input@)) ==> (r matches Action::Invalid(text) && text@ == trim_spec(input@)),
{
    proof {
        reveal_strlit("example");
        reveal_strlit("help");
        reveal_strlit("begin");
        reveal_strlit("quit");
        reveal_strlit("set ");
        assert("example"@[0] == 'e' && "help"@[0] == 'h' && "begin"@[0] == 'b' && "quit"@[0] == 'q');
        assert("set "@[0] == 's');
    }
    let t = trim(input);
    if same_text(t, "example") {
        Action::Example
    } else if same_text(t, "help") {
        Action::Help
    } else if same_text(t, "begin") {
        Action::Begin
    } else if same_text(t, "quit") {
        Action::Quit
    } else if starts_with(t, "set ") {
        let rest = t.substring_char(4, t.unicode_len());
        Action::Setting(rest.to_owned())
    } else {
        Action::Invalid(t.to_owned())
    }
}

} // verus!
