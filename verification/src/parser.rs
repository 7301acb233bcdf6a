use vstd::prelude::*;

use crate::token::{str_eq, tokens_view, Color, Component, Condition, Options, SpecCondition,
    SpecToken, Token};

verus! {

// ---------------------------------------------------------------------------
// Character classes and maximal runs
// ---------------------------------------------------------------------------
/// The classes of characters the grammar scans greedy runs of.
#[derive(Clone, Copy, Debug, PartialEq, Eq, Structural)]
pub enum CharClass {
    /// Whitespace.
    Space,
    /// Letters and the underscore: the identifier alphabet.
    Ident,
    /// Anything but `{`: literal text.
    Text,
    /// Anything but `=`: an option key.
    Key,
    /// Anything but `}` and a space: an option value.
    Value,
}

pub open spec fn in_class(cl: CharClass, c: char) -> bool {
    match cl {
        CharClass::Space => c == ' ' || c == '\t' || c == '\r' || c == '\n',
        CharClass::Ident => ('a' <= c && c <= 'z') || ('A' <= c && c <= 'Z') || c == '_',
        CharClass::Text => c != '{',
        CharClass::Key => c != '=',
        CharClass::Value => c != '}' && c != ' ',
    }
}

/// The end of the maximal run of `cl` characters starting at `i`.
pub open spec fn run_end(s: Seq<char>, i: int, cl: CharClass) -> int
    decreases s.len() - i,
{
    if i < s.len() && in_class(cl, s[i]) {
        run_end(s, i + 1, cl)
    } else {
        i
    }
}

/// A maximal run stays inside the string, is made of its class, and is maximal.
pub proof fn lemma_run_end(s: Seq<char>, i: int, cl: CharClass)
    requires
        0 <= i <= s.len(),
    ensures
        i <= run_end(s, i, cl) <= s.len(),
        forall|j: int| i <= j < run_end(s, i, cl) ==> in_class(cl, #[trigger] s[j]),
        run_end(s, i, cl) < s.len() ==> !in_class(cl, s[run_end(s, i, cl)]),
    decreases s.len() - i,
{
    if i < s.len() && in_class(cl, s[i]) {
        lemma_run_end(s, i + 1, cl);
    }
}

fn in_class_exec(cl: CharClass, c: char) -> (r: bool)
    ensures
        r == in_class(cl, c),
{
    match cl {
        CharClass::Space => c == ' ' || c == '\t' || c == '\r' || c == '\n',
        CharClass::Ident => ('a' <= c && c <= 'z') || ('A' <= c && c <= 'Z') || c == '_',
        CharClass::Text => c != '{',
        CharClass::Key => c != '=',
        CharClass::Value => c != '}' && c != ' ',
    }
}

fn scan(s: &str, from: usize, cl: CharClass) -> (r: usize)
    requires
        from <= s@.len(),
    ensures
        r == run_end(s@, from as int, cl),
        from <= r <= s@.len(),
{
    let n = s.unicode_len();
    let mut k = from;
    while k < n && in_class_exec(cl, s.get_char(k))
        invariant
            from <= k <= n,
            n == s@.len(),
            run_end(s@, from as int, cl) == run_end(s@, k as int, cl),
        decreases n - k,
    {
        k = k + 1;
    }
    k
}

// ---------------------------------------------------------------------------
// Identifiers and keywords
// ---------------------------------------------------------------------------
/// `end` and `else` can never be used as identifiers.
pub open spec fn reserved(id: Seq<char>) -> bool {
    id == "end"@ || id == "else"@
}

/// The identifier starting at `i`: the maximal nonempty run of letters and
/// underscores, refused when it spells a reserved word.
pub open spec fn spec_identifier(s: Seq<char>, i: int) -> Option<(int, Seq<char>)> {
    let j = run_end(s, i, CharClass::Ident);
    if j > i && !reserved(s.subrange(i, j)) {
        Some((j, s.subrange(i, j)))
    } else {
        None
    }
}

/// The style keyword a lone identifier inside braces may name.
pub open spec fn style_token_of(id: Seq<char>) -> Option<SpecToken> {
    if id == "reset"@ {
        Some(SpecToken::Reset)
    } else if id == "black"@ {
        Some(SpecToken::Color(Color::Black))
    } else if id == "red"@ {
        Some(SpecToken::Color(Color::Red))
    } else if id == "green"@ {
        Some(SpecToken::Color(Color::Green))
    } else if id == "yellow"@ {
        Some(SpecToken::Color(Color::Yellow))
    } else if id == "blue"@ {
        Some(SpecToken::Color(Color::Blue))
    } else if id == "magenta"@ {
        Some(SpecToken::Color(Color::Magenta))
    } else if id == "cyan"@ {
        Some(SpecToken::Color(Color::Cyan))
    } else if id == "white"@ {
        Some(SpecToken::Color(Color::White))
    } else {
        None
    }
}

/// The component a name identifier refers to.
pub open spec fn component_of(id: Seq<char>) -> Option<Component> {
    if id == "cwd"@ {
        Some(Component::Cwd)
    } else if id == "git_branch"@ {
        Some(Component::GitBranch)
    } else if id == "git_commit"@ {
        Some(Component::GitCommit)
    } else if id == "git_stash"@ {
        Some(Component::GitStash)
    } else if id == "git_status"@ {
        Some(Component::GitStatus)
    } else if id == "hostname"@ {
        Some(Component::Hostname)
    } else if id == "jobs"@ {
        Some(Component::Jobs)
    } else if id == "user"@ {
        Some(Component::User)
    } else {
        None
    }
}

/// The condition a condition identifier refers to: the exit-status test by its
/// fixed name, and otherwise a presence test of the environment variable of
/// that name.
pub open spec fn condition_of(id: Seq<char>) -> SpecCondition {
    if id == "last_command_status"@ {
        SpecCondition::LastCommandStatus
    } else {
        SpecCondition::EnvironmentVariable(id)
    }
}

/// Reads the identifier at `from`, if any.
pub fn identifier(s: &str, from: usize) -> (r: Option<(usize, String)>)
    requires
        from <= s@.len(),
    ensures
        r is None ==> spec_identifier(s@, from as int) is None,
        r matches Some(p) ==> spec_identifier(s@, from as int) == Some((p.0 as int, p.1@)) && from
            < p.0 <= s@.len(),
{
    let end = scan(s, from, CharClass::Ident);
    if end == from {
        return None;
    }
    let id = s.substring_char(from, end).to_owned();
    if str_eq(id.as_str(), "end") || str_eq(id.as_str(), "else") {
        return None;
    }
    Some((end, id))
}

// ---------------------------------------------------------------------------
// Fixed tags
// ---------------------------------------------------------------------------
/// Whether the closing tag `{end}` stands at `i`.
pub open spec fn spec_end_tag(s: Seq<char>, i: int) -> bool {
    i + 5 <= s.len() && s[i] == '{' && s[i + 1] == 'e' && s[i + 2] == 'n' && s[i + 3] == 'd' && s[i
        + 4] == '}'
}

/// Whether the branch tag `{else}` stands at `i`.
pub open spec fn spec_else_tag(s: Seq<char>, i: int) -> bool {
    i + 6 <= s.len() && s[i] == '{' && s[i + 1] == 'e' && s[i + 2] == 'l' && s[i + 3] == 's' && s[i
        + 4] == 'e' && s[i + 5] == '}'
}

fn end_tag_at(s: &str, i: usize) -> (r: bool)
    requires
        i <= s@.len(),
    ensures
        r == spec_end_tag(s@, i as int),
{
    let n = s.unicode_len();
    if n - i < 5 {
        return false;
    }
    s.get_char(i) == '{' && s.get_char(i + 1) == 'e' && s.get_char(i + 2) == 'n' && s.get_char(
        i + 3,
    ) == 'd' && s.get_char(i + 4) == '}'
}

fn else_tag_at(s: &str, i: usize) -> (r: bool)
    requires
        i <= s@.len(),
    ensures
        r == spec_else_tag(s@, i as int),
{
    let n = s.unicode_len();
    if n - i < 6 {
        return false;
    }
    s.get_char(i) == '{' && s.get_char(i + 1) == 'e' && s.get_char(i + 2) == 'l' && s.get_char(
        i + 3,
    ) == 's' && s.get_char(i + 4) == 'e' && s.get_char(i + 5) == '}'
}

// ---------------------------------------------------------------------------
// The grammar, as one spec-level recursive-descent parser
// ---------------------------------------------------------------------------
/// A literal run: one or more characters other than `{`.
pub open spec fn spec_static(s: Seq<char>, i: int) -> Option<(int, SpecToken)> {
    let j = run_end(s, i, CharClass::Text);
    if j > i {
        Some((j, SpecToken::Static(s.subrange(i, j))))
    } else {
        None
    }
}

/// The escaped brace `{{`, kept as literal text.
pub open spec fn spec_escaped(s: Seq<char>, i: int) -> Option<(int, SpecToken)> {
    if i + 2 <= s.len() && s[i] == '{' && s[i + 1] == '{' {
        Some((i + 2, SpecToken::Static(s.subrange(i, i + 2))))
    } else {
        None
    }
}

/// A style marker: braces around a style keyword, with optional whitespace.
pub open spec fn spec_style(s: Seq<char>, i: int) -> Option<(int, SpecToken)> {
    if i < s.len() && s[i] == '{' {
        let a = run_end(s, i + 1, CharClass::Space);
        match spec_identifier(s, a) {
            Some((b, id)) => match style_token_of(id) {
                Some(st) => {
                    let c = run_end(s, b, CharClass::Space);
                    if c < s.len() && s[c] == '}' {
                        Some((c + 1, st))
                    } else {
                        None
                    }
                },
                None => None,
            },
            None => None,
        }
    } else {
        None
    }
}

/// The head `{if condition}` of a conditional.
pub open spec fn spec_cond_header(s: Seq<char>, i: int) -> Option<(int, SpecCondition)> {
    if i < s.len() && s[i] == '{' {
        let a = run_end(s, i + 1, CharClass::Space);
        if a + 2 <= s.len() && s[a] == 'i' && s[a + 1] == 'f' {
            let b = run_end(s, a + 2, CharClass::Space);
            match spec_identifier(s, b) {
                Some((c, id)) => if c < s.len() && s[c] == '}' {
                    Some((c + 1, condition_of(id)))
                } else {
                    None
                },
                None => None,
            }
        } else {
            None
        }
    } else {
        None
    }
}

/// One `key=value` option: whitespace, a nonempty run without `=`, the `=`,
/// and a nonempty run without `}` or space.
pub open spec fn spec_key_value(s: Seq<char>, i: int) -> Option<(int, (Seq<char>, Seq<char>))> {
    let a = run_end(s, i, CharClass::Space);
    let b = run_end(s, a, CharClass::Key);
    if b > a && b < s.len() && s[b] == '=' {
        let c = run_end(s, b + 1, CharClass::Value);
        if c > b + 1 {
            Some((c, (s.subrange(a, b), s.subrange(b + 1, c))))
        } else {
            None
        }
    } else {
        None
    }
}

/// As many `key=value` options as will parse, with the raw pairs in order.
pub open spec fn spec_key_values(s: Seq<char>, i: int) -> (int, Seq<(Seq<char>, Seq<char>)>)
    decreases s.len() - i,
{
    match spec_key_value(s, i) {
        None => (i, Seq::empty()),
        Some((j, kv)) => if i < j <= s.len() {
            let (k, rest) = spec_key_values(s, j);
            (k, seq![kv] + rest)
        } else {
            (i, Seq::empty())
        },
    }
}

/// How an option mapping grows by one `key=value` pair: a fresh key is
/// appended, a repeated key overwrites its value in place.
pub open spec fn insert_pair(
    opts: Seq<(Seq<char>, Seq<char>)>,
    p: (Seq<char>, Seq<char>),
) -> Seq<(Seq<char>, Seq<char>)> {
    let ix = crate::token::key_index(opts, p.0);
    if ix == -1 {
        opts.push(p)
    } else {
        opts.update(ix, p)
    }
}

/// The option mapping the raw pairs build up, left to right.
pub open spec fn options_from_pairs(pairs: Seq<(Seq<char>, Seq<char>)>) -> Seq<
    (Seq<char>, Seq<char>),
>
    decreases pairs.len(),
{
    if pairs.len() == 0 {
        Seq::empty()
    } else {
        insert_pair(options_from_pairs(pairs.drop_last()), pairs.last())
    }
}

/// A component reference: braces around a component name and its options,
/// with optional whitespace.
pub open spec fn spec_component(s: Seq<char>, i: int) -> Option<(int, SpecToken)> {
    if i < s.len() && s[i] == '{' {
        let a = run_end(s, i + 1, CharClass::Space);
        match spec_identifier(s, a) {
            Some((b, id)) => match component_of(id) {
                Some(name) => {
                    let (c, pairs) = spec_key_values(s, b);
                    let d = run_end(s, c, CharClass::Space);
                    if d < s.len() && s[d] == '}' {
                        Some(
                            (d + 1, SpecToken::Component {
                                name,
                                options: options_from_pairs(pairs),
                            }),
                        )
                    } else {
                        None
                    }
                },
                None => None,
            },
            None => None,
        }
    } else {
        None
    }
}

/// A whole conditional: the head, the `left` token sequence, an optional
/// `{else}` with the `right` sequence, and the closing `{end}`.
pub open spec fn spec_conditional(s: Seq<char>, i: int) -> Option<(int, SpecToken)>
    decreases s.len() - i, 0int,
{
    match spec_cond_header(s, i) {
        None => None,
        Some((j, condition)) => if i < j <= s.len() {
            match spec_tokens(s, j) {
                None => None,
                Some((k, left)) => if j < k <= s.len() {
                    if spec_else_tag(s, k) {
                        match spec_tokens(s, k + 6) {
                            Some((m, right)) => if spec_end_tag(s, m) {
                                Some(
                                    (m + 5, SpecToken::Conditional {
                                        condition,
                                        left,
                                        right: Some(right),
                                    }),
                                )
                            } else {
                                None
                            },
                            None => if spec_end_tag(s, k) {
                                Some((k + 5, SpecToken::Conditional { condition, left, right: None }))
                            } else {
                                None
                            },
                        }
                    } else if spec_end_tag(s, k) {
                        Some((k + 5, SpecToken::Conditional { condition, left, right: None }))
                    } else {
                        None
                    }
                } else {
                    None
                },
            }
        } else {
            None
        },
    }
}

/// One token, by the first alternative that matches: a literal run, the
/// escaped brace, a style marker, a conditional, a component.
pub open spec fn spec_token(s: Seq<char>, i: int) -> Option<(int, SpecToken)>
    decreases s.len() - i, 1int,
{
    if i >= s.len() {
        None
    } else if spec_static(s, i) is Some {
        spec_static(s, i)
    } else if spec_escaped(s, i) is Some {
        spec_escaped(s, i)
    } else if spec_style(s, i) is Some {
        spec_style(s, i)
    } else if spec_conditional(s, i) is Some {
        spec_conditional(s, i)
    } else {
        spec_component(s, i)
    }
}

/// One or more tokens, as many as will parse.
pub open spec fn spec_tokens(s: Seq<char>, i: int) -> Option<(int, Seq<SpecToken>)>
    decreases s.len() - i, 2int,
{
    match spec_token(s, i) {
        None => None,
        Some((j, t)) => if i < j <= s.len() {
            match spec_tokens(s, j) {
                None => Some((j, seq![t])),
                Some((k, ts)) => Some((k, seq![t] + ts)),
            }
        } else {
            None
        },
    }
}

/// What parsing a whole template yields: the token sequence when the input is
/// consumed entirely, else the unconsumed suffix.
pub open spec fn spec_parse(s: Seq<char>) -> Result<Seq<SpecToken>, Seq<char>> {
    match spec_tokens(s, 0) {
        Some((j, ts)) => if j == s.len() {
            Ok(ts)
        } else {
            Err(s.subrange(j, s.len() as int))
        },
        None => Err(s),
    }
}

// ---------------------------------------------------------------------------
// The executable parser
// ---------------------------------------------------------------------------
/// The template did not match the grammar; `remainder` is the unconsumed
/// suffix at which parsing stopped.
#[derive(Debug, PartialEq)]
pub struct ParseError {
    pub remainder: String,
}

impl ParseError {
    /// The error as one line of text.
    pub fn message(&self) -> (r: String)
        ensures
            r@ == "parse error: "@ + self.remainder@,
    {
        let mut m = "parse error: ".to_owned();
        m.append(self.remainder.as_str());
        m
    }
}

fn style_of_exec(id: &String) -> (r: Option<Token>)
    ensures
        r is None ==> style_token_of(id@) is None,
        r matches Some(t) ==> style_token_of(id@) == Some(t@),
{
    if str_eq(id.as_str(), "reset") {
        Some(Token::Reset)
    } else if str_eq(id.as_str(), "black") {
        Some(Token::Color(Color::Black))
    } else if str_eq(id.as_str(), "red") {
        Some(Token::Color(Color::Red))
    } else if str_eq(id.as_str(), "green") {
        Some(Token::Color(Color::Green))
    } else if str_eq(id.as_str(), "yellow") {
        Some(Token::Color(Color::Yellow))
    } else if str_eq(id.as_str(), "blue") {
        Some(Token::Color(Color::Blue))
    } else if str_eq(id.as_str(), "magenta") {
        Some(Token::Color(Color::Magenta))
    } else if str_eq(id.as_str(), "cyan") {
        Some(Token::Color(Color::Cyan))
    } else if str_eq(id.as_str(), "white") {
        Some(Token::Color(Color::White))
    } else {
        None
    }
}

fn component_of_exec(id: &String) -> (r: Option<Component>)
    ensures
        component_of(id@) == r,
{
    if str_eq(id.as_str(), "cwd") {
        Some(Component::Cwd)
    } else if str_eq(id.as_str(), "git_branch") {
        Some(Component::GitBranch)
    } else if str_eq(id.as_str(), "git_commit") {
        Some(Component::GitCommit)
    } else if str_eq(id.as_str(), "git_stash") {
        Some(Component::GitStash)
    } else if str_eq(id.as_str(), "git_status") {
        Some(Component::GitStatus)
    } else if str_eq(id.as_str(), "hostname") {
        Some(Component::Hostname)
    } else if str_eq(id.as_str(), "jobs") {
        Some(Component::Jobs)
    } else if str_eq(id.as_str(), "user") {
        Some(Component::User)
    } else {
        None
    }
}

fn condition_of_exec(id: String) -> (r: Condition)
    ensures
        r@ == condition_of(id@),
{
    if str_eq(id.as_str(), "last_command_status") {
        Condition::LastCommandStatus
    } else {
        Condition::EnvironmentVariable(id)
    }
}

fn parse_style_at(s: &str, i: usize) -> (r: Option<(usize, Token)>)
    requires
        i <= s@.len(),
    ensures
        r is None ==> spec_style(s@, i as int) is None,
        r matches Some(p) ==> spec_style(s@, i as int) == Some((p.0 as int, p.1@)) && i < p.0
            <= s@.len(),
{
    if i >= s.unicode_len() || s.get_char(i) != '{' {
        return None;
    }
    let a = scan(s, i + 1, CharClass::Space);
    match identifier(s, a) {
        None => None,
        Some((b, id)) => match style_of_exec(&id) {
            None => None,
            Some(tok) => {
                let c = scan(s, b, CharClass::Space);
                if c < s.unicode_len() && s.get_char(c) == '}' {
                    Some((c + 1, tok))
                } else {
                    None
                }
            },
        },
    }
}

fn parse_cond_header_at(s: &str, i: usize) -> (r: Option<(usize, Condition)>)
    requires
        i <= s@.len(),
    ensures
        r is None ==> spec_cond_header(s@, i as int) is None,
        r matches Some(p) ==> spec_cond_header(s@, i as int) == Some((p.0 as int, p.1@)) && i < p.0
            <= s@.len(),
{
    let n = s.unicode_len();
    if i >= n || s.get_char(i) != '{' {
        return None;
    }
    let a = scan(s, i + 1, CharClass::Space);
    if !(n - a >= 2 && s.get_char(a) == 'i' && s.get_char(a + 1) == 'f') {
        return None;
    }
    let b = scan(s, a + 2, CharClass::Space);
    match identifier(s, b) {
        None => None,
        Some((c, id)) => if c < n && s.get_char(c) == '}' {
            Some((c + 1, condition_of_exec(id)))
        } else {
            None
        },
    }
}

fn parse_key_value_at(s: &str, i: usize) -> (r: Option<(usize, (String, String))>)
    requires
        i <= s@.len(),
    ensures
        r is None ==> spec_key_value(s@, i as int) is None,
        r matches Some(p) ==> spec_key_value(s@, i as int) == Some(
            (p.0 as int, ((p.1).0@, (p.1).1@)),
        ) && i < p.0 <= s@.len(),
{
    let a = scan(s, i, CharClass::Space);
    let b = scan(s, a, CharClass::Key);
    if b > a && b < s.unicode_len() && s.get_char(b) == '=' {
        let c = scan(s, b + 1, CharClass::Value);
        if c > b + 1 {
            Some((c, (s.substring_char(a, b).to_owned(), s.substring_char(b + 1, c).to_owned())))
        } else {
            None
        }
    } else {
        None
    }
}

fn parse_key_values_at(s: &str, i: usize) -> (r: (usize, Options))
    requires
        i <= s@.len(),
    ensures
        r.0 as int == spec_key_values(s@, i as int).0,
        r.1@ == options_from_pairs(spec_key_values(s@, i as int).1),
        i <= r.0 <= s@.len(),
{
    let mut opts = Options::new();
    let mut k = i;
    let ghost mut acc: Seq<(Seq<char>, Seq<char>)> = Seq::empty();
    proof {
        assert(options_from_pairs(acc) =~= opts@);
    }
    loop
        invariant
            i <= k <= s@.len(),
            opts@ == options_from_pairs(acc),
            spec_key_values(s@, i as int).0 == spec_key_values(s@, k as int).0,
            spec_key_values(s@, i as int).1 == acc + spec_key_values(s@, k as int).1,
        decreases s@.len() - k,
    {
        match parse_key_value_at(s, k) {
            None => {
                proof {
                    assert(spec_key_values(s@, k as int).1 =~= Seq::<(Seq<char>, Seq<char>)>::empty());
                    assert(acc + spec_key_values(s@, k as int).1 =~= acc);
                }
                return (k, opts);
            },
            Some((j, kv)) => {
                let ghost acc2 = acc.push((kv.0@, kv.1@));
                proof {
                    assert(acc2.drop_last() =~= acc);
                    assert(spec_key_values(s@, k as int).1 == seq![(kv.0@, kv.1@)]
                        + spec_key_values(s@, j as int).1);
                    assert(acc + (seq![(kv.0@, kv.1@)] + spec_key_values(s@, j as int).1) =~= acc2
                        + spec_key_values(s@, j as int).1);
                }
                opts.insert(kv.0, kv.1);
                proof {
                    crate::token::lemma_key_index(options_from_pairs(acc), (kv.0@));
                    acc = acc2;
                }
                k = j;
            },
        }
    }
}

fn parse_component_at(s: &str, i: usize) -> (r: Option<(usize, Token)>)
    requires
        i <= s@.len(),
    ensures
        r is None ==> spec_component(s@, i as int) is None,
        r matches Some(p) ==> spec_component(s@, i as int) == Some((p.0 as int, p.1@)) && i < p.0
            <= s@.len(),
{
    if i >= s.unicode_len() || s.get_char(i) != '{' {
        return None;
    }
    let a = scan(s, i + 1, CharClass::Space);
    match identifier(s, a) {
        None => None,
        Some((b, id)) => match component_of_exec(&id) {
            None => None,
            Some(name) => {
                let (c, options) = parse_key_values_at(s, b);
                let d = scan(s, c, CharClass::Space);
                if d < s.unicode_len() && s.get_char(d) == '}' {
                    Some((d + 1, Token::Component { name, options }))
                } else {
                    None
                }
            },
        },
    }
}

fn parse_conditional_at(s: &str, i: usize) -> (r: Option<(usize, Token)>)
    requires
        i <= s@.len(),
    ensures
        r is None ==> spec_conditional(s@, i as int) is None,
        r matches Some(p) ==> spec_conditional(s@, i as int) == Some((p.0 as int, p.1@)) && i < p.0
            <= s@.len(),
    decreases s@.len() - i, 0int,
{
    // pins the character count into a machine word, so that the positions
    // just past the `{else}` and `{end}` tags cannot overflow
    let _n = s.unicode_len();
    match parse_cond_header_at(s, i) {
        None => None,
        Some((j, condition)) => match parse_tokens_at(s, j) {
            None => None,
            Some((k, left)) => {
                if else_tag_at(s, k) {
                    match parse_tokens_at(s, k + 6) {
                        Some((m, right)) => if end_tag_at(s, m) {
                            Some((m + 5, Token::Conditional { condition, left, right: Some(right) }))
                        } else {
                            None
                        },
                        None => if end_tag_at(s, k) {
                            Some((k + 5, Token::Conditional { condition, left, right: None }))
                        } else {
                            None
                        },
                    }
                } else if end_tag_at(s, k) {
                    Some((k + 5, Token::Conditional { condition, left, right: None }))
                } else {
                    None
                }
            },
        },
    }
}

fn parse_token_at(s: &str, i: usize) -> (r: Option<(usize, Token)>)
    requires
        i <= s@.len(),
    ensures
        r is None ==> spec_token(s@, i as int) is None,
        r matches Some(p) ==> spec_token(s@, i as int) == Some((p.0 as int, p.1@)) && i < p.0
            <= s@.len(),
    decreases s@.len() - i, 1int,
{
    let n = s.unicode_len();
    if i >= n {
        return None;
    }
    if s.get_char(i) != '{' {
        let j = scan(s, i, CharClass::Text);
        proof {
            lemma_run_end(s@, i as int, CharClass::Text);
        }
        return Some((j, Token::Static(s.substring_char(i, j).to_owned())));
    }
    if i + 1 < n && s.get_char(i + 1) == '{' {
        let t = Token::Static(s.substring_char(i, i + 2).to_owned());
        return Some((i + 2, t));
    }
    match parse_style_at(s, i) {
        Some(p) => Some(p),
        None => match parse_conditional_at(s, i) {
            Some(p) => Some(p),
            None => parse_component_at(s, i),
        },
    }
}

fn parse_tokens_at(s: &str, i: usize) -> (r: Option<(usize, Vec<Token>)>)
    requires
        i <= s@.len(),
    ensures
        r is None ==> spec_tokens(s@, i as int) is None,
        r matches Some(p) ==> spec_tokens(s@, i as int) == Some(
            (p.0 as int, tokens_view(p.1@)),
        ) && i < p.0 <= s@.len(),
    decreases s@.len() - i, 2int,
{
    let mut toks: Vec<Token> = Vec::new();
    let mut k = i;
    match parse_token_at(s, i) {
        None => {
            return None;
        },
        Some((j0, t0)) => {
            proof {
                lemma_tokens_view_push(toks@, t0);
                assert(tokens_view(Seq::<Token>::empty()) =~= Seq::<SpecToken>::empty());
            }
            toks.push(t0);
            k = j0;
            proof {
                assert(tokens_view(toks@) =~= seq![t0@]);
            }
        },
    }
    loop
        invariant
            i < k <= s@.len(),
            i <= s@.len(),
            (match spec_tokens(s@, k as int) {
                None => spec_tokens(s@, i as int) == Some((k as int, tokens_view(toks@))),
                Some((k2, ts2)) => spec_tokens(s@, i as int) == Some(
                    (k2, tokens_view(toks@) + ts2),
                ),
            }),
        decreases s@.len() - k,
    {
        match parse_token_at(s, k) {
            None => {
                return Some((k, toks));
            },
            Some((j, t)) => {
                let ghost tv_old = tokens_view(toks@);
                proof {
                    lemma_tokens_view_push(toks@, t);
                }
                toks.push(t);
                proof {
                    assert(tokens_view(toks@) =~= tv_old.push(t@));
                    match spec_tokens(s@, j as int) {
                        None => {
                            assert(tv_old + seq![t@] =~= tokens_view(toks@));
                        },
                        Some((k2, ts2)) => {
                            assert(tv_old + (seq![t@] + ts2) =~= tokens_view(toks@) + ts2);
                        },
                    }
                }
                k = j;
            },
        }
    }
}

/// Turns a template into its token sequence, or reports the suffix at which
/// the grammar stopped matching. The whole input must be consumed: a trailing
/// unparsable remainder fails the parse even when a prefix parsed fine.
pub fn parse(template: &str) -> (r: Result<Vec<Token>, ParseError>)
    ensures
        r matches Ok(v) ==> spec_parse(template@) == Ok::<Seq<SpecToken>, Seq<char>>(
            tokens_view(v@),
        ),
        r matches Err(e) ==> spec_parse(template@) == Err::<Seq<SpecToken>, Seq<char>>(
            e.remainder@,
        ),
{
    let n = template.unicode_len();
    match parse_tokens_at(template, 0) {
        Some((j, toks)) => if j == n {
            Ok(toks)
        } else {
            Err(ParseError { remainder: template.substring_char(j, n).to_owned() })
        },
        None => {
            proof {
                assert(template@.subrange(0, template@.len() as int) =~= template@);
            }
            Err(ParseError { remainder: template.to_owned() })
        },
    }
}

// ---------------------------------------------------------------------------
// Serialization back to template syntax
// ---------------------------------------------------------------------------
/// The keyword that names a color.
pub open spec fn color_keyword(c: Color) -> Seq<char> {
    match c {
        Color::Black => "black"@,
        Color::Red => "red"@,
        Color::Green => "green"@,
        Color::Yellow => "yellow"@,
        Color::Blue => "blue"@,
        Color::Magenta => "magenta"@,
        Color::Cyan => "cyan"@,
        Color::White => "white"@,
    }
}

/// The identifier that names a component.
pub open spec fn component_keyword(name: Component) -> Seq<char> {
    match name {
        Component::Cwd => "cwd"@,
        Component::GitBranch => "git_branch"@,
        Component::GitCommit => "git_commit"@,
        Component::GitStash => "git_stash"@,
        Component::GitStatus => "git_status"@,
        Component::Hostname => "hostname"@,
        Component::Jobs => "jobs"@,
        Component::User => "user"@,
    }
}

/// The identifier that names a condition.
pub open spec fn condition_keyword(c: SpecCondition) -> Seq<char> {
    match c {
        SpecCondition::LastCommandStatus => "last_command_status"@,
        SpecCondition::EnvironmentVariable(n) => n,
    }
}

/// The options spelled back as ` key=value` runs.
pub open spec fn spec_serialize_options(opts: Seq<(Seq<char>, Seq<char>)>) -> Seq<char>
    decreases opts.len(),
{
    if opts.len() == 0 {
        Seq::empty()
    } else {
        " "@ + opts[0].0 + "="@ + opts[0].1 + spec_serialize_options(opts.drop_first())
    }
}

/// One token spelled back in template syntax.
pub open spec fn spec_serialize_token(t: SpecToken) -> Seq<char>
    decreases t,
{
    match t {
        SpecToken::Static(s) => s,
        SpecToken::Color(c) => "{"@ + color_keyword(c) + "}"@,
        SpecToken::Reset => "{reset}"@,
        SpecToken::Component { name, options } => "{"@ + component_keyword(name)
            + spec_serialize_options(options) + "}"@,
        SpecToken::Conditional { condition, left, right } => "{if "@ + condition_keyword(condition)
            + "}"@ + spec_serialize_tokens(left) + (match right {
            Some(r) => "{else}"@ + spec_serialize_tokens(r),
            None => Seq::<char>::empty(),
        }) + "{end}"@,
    }
}

/// A token sequence spelled back in template syntax.
pub open spec fn spec_serialize_tokens(ts: Seq<SpecToken>) -> Seq<char>
    decreases ts,
{
    if ts.len() == 0 {
        Seq::empty()
    } else {
        spec_serialize_token(ts[0]) + spec_serialize_tokens(ts.drop_first())
    }
}

fn append_color_keyword(out: &mut String, c: &Color)
    ensures
        final(out)@ == old(out)@ + color_keyword(*c),
{
    let kw: &str = match c {
        Color::Black => "black",
        Color::Red => "red",
        Color::Green => "green",
        Color::Yellow => "yellow",
        Color::Blue => "blue",
        Color::Magenta => "magenta",
        Color::Cyan => "cyan",
        Color::White => "white",
    };
    out.append(kw);
}

fn append_component_keyword(out: &mut String, name: &Component)
    ensures
        final(out)@ == old(out)@ + component_keyword(*name),
{
    let kw: &str = match name {
        Component::Cwd => "cwd",
        Component::GitBranch => "git_branch",
        Component::GitCommit => "git_commit",
        Component::GitStash => "git_stash",
        Component::GitStatus => "git_status",
        Component::Hostname => "hostname",
        Component::Jobs => "jobs",
        Component::User => "user",
    };
    out.append(kw);
}

fn append_token(out: &mut String, t: &Token)
    ensures
        final(out)@ == old(out)@ + spec_serialize_token((*t)@),
    decreases *t,
{
    match t {
        Token::Static(s) => {
            out.append(s.as_str());
        },
        Token::Color(c) => {
            out.append("{");
            append_color_keyword(out, c);
            out.append("}");
        },
        Token::Reset => {
            out.append("{reset}");
        },
        Token::Component { name, options } => {
            out.append("{");
            append_component_keyword(out, name);
            let n = options.len();
            let ghost mid = out@;
            for i in 0..n
                invariant
                    n == options@.len(),
                    out@ == mid + spec_serialize_options(options@.take(i as int)),
            {
                let ghost pre = out@;
                let (k, v) = options.pair(i);
                out.append(" ");
                out.append(k.as_str());
                out.append("=");
                out.append(v.as_str());
                proof {
                    lemma_serialize_options_step(options@, i as int);
                    assert(out@ =~= pre + (" "@ + options@[i as int].0 + "="@ + options@[i as
                        int].1));
                    assert(mid + (spec_serialize_options(options@.take(i as int)) + (" "@
                        + options@[i as int].0 + "="@ + options@[i as int].1)) =~= (mid
                        + spec_serialize_options(options@.take(i as int))) + (" "@ + options@[i as
                        int].0 + "="@ + options@[i as int].1));
                }
            }
            proof {
                assert(options@.take(n as int) =~= options@);
            }
            out.append("}");
        },
        Token::Conditional { condition, left, right } => {
            out.append("{if ");
            match condition {
                Condition::LastCommandStatus => {
                    out.append("last_command_status");
                },
                Condition::EnvironmentVariable(name) => {
                    out.append(name.as_str());
                },
            }
            out.append("}");
            append_tokens(out, left);
            match right {
                Some(r) => {
                    out.append("{else}");
                    append_tokens(out, r);
                },
                None => {},
            }
            out.append("{end}");
        },
    }
}

/// One unfolding step of option serialization over a prefix.
pub proof fn lemma_serialize_options_step(opts: Seq<(Seq<char>, Seq<char>)>, j: int)
    requires
        0 <= j < opts.len(),
    ensures
        spec_serialize_options(opts.take(j + 1)) == spec_serialize_options(opts.take(j)) + (" "@
            + opts[j].0 + "="@ + opts[j].1),
    decreases j,
{
    if j == 0 {
        assert(opts.take(1)[0] == opts[0]);
        assert(opts.take(1).drop_first() =~= Seq::<(Seq<char>, Seq<char>)>::empty());
        assert(opts.take(0) =~= Seq::<(Seq<char>, Seq<char>)>::empty());
        assert(spec_serialize_options(opts.take(1)) =~= spec_serialize_options(opts.take(0)) + (
        " "@ + opts[0].0 + "="@ + opts[0].1));
    } else {
        lemma_serialize_options_step(opts.drop_first(), j - 1);
        assert(opts.take(j + 1)[0] == opts[0]);
        assert(opts.take(j)[0] == opts[0]);
        assert(opts.take(j + 1).drop_first() =~= opts.drop_first().take(j));
        assert(opts.take(j).drop_first() =~= opts.drop_first().take(j - 1));
        assert(opts.drop_first()[j - 1] == opts[j]);
        assert(spec_serialize_options(opts.take(j + 1)) == " "@ + opts[0].0 + "="@ + opts[0].1
            + spec_serialize_options(opts.drop_first().take(j)));
        assert(spec_serialize_options(opts.take(j)) == " "@ + opts[0].0 + "="@ + opts[0].1
            + spec_serialize_options(opts.drop_first().take(j - 1)));
        assert((" "@ + opts[0].0 + "="@ + opts[0].1 + (spec_serialize_options(
            opts.drop_first().take(j - 1),
        ) + (" "@ + opts[j].0 + "="@ + opts[j].1))) =~= ((" "@ + opts[0].0 + "="@ + opts[0].1
            + spec_serialize_options(opts.drop_first().take(j - 1))) + (" "@ + opts[j].0 + "="@
            + opts[j].1)));
    }
}

fn append_tokens(out: &mut String, tokens: &Vec<Token>)
    ensures
        final(out)@ == old(out)@ + spec_serialize_tokens(tokens_view(tokens@)),
    decreases tokens@,
{
    let ghost tv = tokens_view(tokens@);
    let n = tokens.len();
    for i in 0..n
        invariant
            n == tokens@.len(),
            tv == tokens_view(tokens@),
            out@ == old(out)@ + spec_serialize_prefix(tv, i as int),
    {
        let ghost pre = out@;
        append_token(out, &tokens[i]);
        proof {
            assert(tv[i as int] == tokens@[i as int]@);
            lemma_serialize_prefix_step(tv, i as int);
            assert(out@ =~= old(out)@ + spec_serialize_prefix(tv, i as int + 1));
        }
    }
    proof {
        lemma_serialize_prefix_all(tv);
    }
}

/// The serialization of the first `i` tokens.
pub open spec fn spec_serialize_prefix(ts: Seq<SpecToken>, i: int) -> Seq<char>
    decreases i,
{
    if i <= 0 {
        Seq::empty()
    } else {
        spec_serialize_prefix(ts, i - 1) + spec_serialize_token(ts[i - 1])
    }
}

/// One more token extends the serialized prefix by that token's spelling.
pub proof fn lemma_serialize_prefix_step(ts: Seq<SpecToken>, i: int)
    requires
        0 <= i,
    ensures
        spec_serialize_prefix(ts, i + 1) == spec_serialize_prefix(ts, i) + spec_serialize_token(
            ts[i],
        ),
{
}

/// The full prefix is the whole serialization.
pub proof fn lemma_serialize_prefix_all(ts: Seq<SpecToken>)
    ensures
        spec_serialize_prefix(ts, ts.len() as int) == spec_serialize_tokens(ts),
    decreases ts.len(),
{
    if ts.len() == 0 {
        assert(spec_serialize_prefix(ts, 0) =~= spec_serialize_tokens(ts));
    } else {
        lemma_serialize_prefix_all(ts.drop_first());
        lemma_serialize_prefix_shift(ts, ts.len() as int - 1);
        assert(spec_serialize_prefix(ts, ts.len() as int) == spec_serialize_token(ts[0])
            + spec_serialize_prefix(ts.drop_first(), ts.len() - 1));
    }
}

/// A prefix of length `i + 1` is the head token followed by the tail's
/// prefix of length `i`.
pub proof fn lemma_serialize_prefix_shift(ts: Seq<SpecToken>, i: int)
    requires
        0 <= i < ts.len(),
    ensures
        spec_serialize_prefix(ts, i + 1) == spec_serialize_token(ts[0]) + spec_serialize_prefix(
            ts.drop_first(),
            i,
        ),
    decreases i,
{
    if i == 0 {
        assert(spec_serialize_prefix(ts, 0) =~= Seq::<char>::empty());
        assert(spec_serialize_prefix(ts.drop_first(), 0) =~= Seq::<char>::empty());
        assert(spec_serialize_prefix(ts, 1) == spec_serialize_prefix(ts, 0)
            + spec_serialize_token(ts[0]));
        assert(spec_serialize_prefix(ts, 1) =~= spec_serialize_token(ts[0]) + spec_serialize_prefix(
            ts.drop_first(),
            0,
        ));
    } else {
        lemma_serialize_prefix_shift(ts, i - 1);
        assert(ts.drop_first()[i - 1] == ts[i]);
        assert((spec_serialize_token(ts[0]) + spec_serialize_prefix(ts.drop_first(), i - 1))
            + spec_serialize_token(ts[i]) =~= spec_serialize_token(ts[0]) + (spec_serialize_prefix(
            ts.drop_first(),
            i - 1,
        ) + spec_serialize_token(ts[i])));
    }
}

/// Spells a token sequence back in template syntax: literal text verbatim
/// and each directive reconstructed.
pub fn serialize(tokens: &Vec<Token>) -> (r: String)
    ensures
        r@ == spec_serialize_tokens(tokens_view(tokens@)),
{
    let mut out = String::new();
    append_tokens(&mut out, tokens);
    out
}

// ---------------------------------------------------------------------------
// Laws of the grammar
// ---------------------------------------------------------------------------
/// Whether no two entries of an option mapping share a key.
pub open spec fn unique_keys(opts: Seq<(Seq<char>, Seq<char>)>) -> bool {
    forall|i: int, j: int|
        0 <= i < j < opts.len() ==> (#[trigger] opts[i]).0 != (#[trigger] opts[j]).0
}

/// Inserting one pair keeps keys unique.
pub proof fn lemma_insert_pair_unique(opts: Seq<(Seq<char>, Seq<char>)>, p: (Seq<char>, Seq<char>))
    requires
        unique_keys(opts),
    ensures
        unique_keys(insert_pair(opts, p)),
{
    crate::token::lemma_key_index(opts, p.0);
    let ix = crate::token::key_index(opts, p.0);
    if ix == -1 {
        assert forall|i: int, j: int| 0 <= i < j < opts.push(p).len() implies (#[trigger] opts.push(
            p,
        )[i]).0 != (#[trigger] opts.push(p)[j]).0 by {
            if j == opts.len() {
                assert(opts.push(p)[i] == opts[i]);
            }
        }
    } else {
        // the key at `ix` is already `p.0`, so updating it changes no key
        assert forall|i: int, j: int| 0 <= i < j < opts.update(ix, p).len() implies (
        #[trigger] opts.update(ix, p)[i]).0 != (#[trigger] opts.update(ix, p)[j]).0 by {
            assert(opts.update(ix, p)[i].0 == opts[i].0);
            assert(opts.update(ix, p)[j].0 == opts[j].0);
        }
    }
}

/// However the raw pairs repeat, the mapping they build has unique keys.
pub proof fn lemma_options_from_pairs_unique(pairs: Seq<(Seq<char>, Seq<char>)>)
    ensures
        unique_keys(options_from_pairs(pairs)),
    decreases pairs.len(),
{
    if pairs.len() > 0 {
        lemma_options_from_pairs_unique(pairs.drop_last());
        lemma_insert_pair_unique(options_from_pairs(pairs.drop_last()), pairs.last());
    }
}

/// Whether a parsed condition is well formed: an environment-variable test
/// names a nonempty identifier that is no reserved word.
pub open spec fn condition_wf(c: SpecCondition) -> bool {
    match c {
        SpecCondition::LastCommandStatus => true,
        SpecCondition::EnvironmentVariable(n) => n.len() > 0 && !reserved(n),
    }
}

/// Whether one token keeps the parse-time invariants: every component
/// reference carries a mapping with unique keys, and no condition names a
/// reserved word.
pub open spec fn token_wf(t: SpecToken) -> bool
    decreases t,
{
    match t {
        SpecToken::Component { name: _, options } => unique_keys(options),
        SpecToken::Conditional { condition, left, right } => condition_wf(condition)
            && tokens_wf(left) && (match right {
            Some(r) => tokens_wf(r),
            None => true,
        }),
        _ => true,
    }
}

/// Whether every token of a sequence keeps the parse-time invariants.
pub open spec fn tokens_wf(ts: Seq<SpecToken>) -> bool
    decreases ts,
{
    if ts.len() == 0 {
        true
    } else {
        token_wf(ts[0]) && tokens_wf(ts.drop_first())
    }
}

/// Every token a conditional parse yields keeps the invariants.
proof fn lemma_conditional_wf(s: Seq<char>, i: int)
    requires
        0 <= i <= s.len(),
    ensures
        spec_conditional(s, i) matches Some(p) ==> token_wf(p.1),
    decreases s.len() - i, 0int,
{
    if i < s.len() && s[i] == '{' {
        let a = run_end(s, i + 1, CharClass::Space);
        lemma_run_end(s, i + 1, CharClass::Space);
        if a + 2 <= s.len() && s[a] == 'i' && s[a + 1] == 'f' {
            let b = run_end(s, a + 2, CharClass::Space);
            lemma_run_end(s, a + 2, CharClass::Space);
            let e = run_end(s, b, CharClass::Ident);
            lemma_run_end(s, b, CharClass::Ident);
            match spec_identifier(s, b) {
                Some((_c, id)) => {
                    assert(e > b && id == s.subrange(b, e));
                    assert(id.len() == e - b);
                    assert(condition_wf(condition_of(id)));
                },
                None => {},
            }
        }
    }
    match spec_cond_header(s, i) {
        None => {},
        Some((j, _condition)) => {
            if i < j <= s.len() {
                match spec_tokens(s, j) {
                    None => {},
                    Some((k, _left)) => {
                        if j < k <= s.len() {
                            lemma_tokens_wf(s, j);
                            if spec_else_tag(s, k) {
                                lemma_tokens_wf(s, k + 6);
                            }
                        }
                    },
                }
            }
        },
    }
}

/// Every token a single-token parse yields keeps the invariants.
proof fn lemma_token_wf(s: Seq<char>, i: int)
    requires
        0 <= i <= s.len(),
    ensures
        spec_token(s, i) matches Some(p) ==> token_wf(p.1),
    decreases s.len() - i, 1int,
{
    if i < s.len() && spec_static(s, i) is None && spec_escaped(s, i) is None && spec_style(s, i)
        is None {
        lemma_conditional_wf(s, i);
        if spec_conditional(s, i) is None {
            if i < s.len() && s[i] == '{' {
                let a = run_end(s, i + 1, CharClass::Space);
                match spec_identifier(s, a) {
                    Some((b, id)) => {
                        let (_c, pairs) = spec_key_values(s, b);
                        lemma_options_from_pairs_unique(pairs);
                    },
                    None => {},
                }
            }
        }
    }
}

/// Every token a sequence parse yields keeps the invariants.
proof fn lemma_tokens_wf(s: Seq<char>, i: int)
    requires
        0 <= i <= s.len(),
    ensures
        spec_tokens(s, i) matches Some(p) ==> tokens_wf(p.1),
    decreases s.len() - i, 2int,
{
    match spec_token(s, i) {
        None => {},
        Some((j, t)) => {
            if i < j <= s.len() {
                lemma_token_wf(s, i);
                match spec_tokens(s, j) {
                    None => {
                        assert(seq![t].drop_first() =~= Seq::<SpecToken>::empty());
                        assert(seq![t][0] == t);
                        assert(tokens_wf(Seq::<SpecToken>::empty()));
                        assert(tokens_wf(seq![t]));
                    },
                    Some((_k, ts)) => {
                        lemma_tokens_wf(s, j);
                        assert((seq![t] + ts).drop_first() =~= ts);
                        assert((seq![t] + ts)[0] == t);
                        assert(tokens_wf(seq![t] + ts));
                    },
                }
            }
        },
    }
}

/// What a successful parse hands back is well formed: no component
/// reference's option mapping holds a key twice, however often the template
/// repeated it, and no reserved word stands as a parsed condition name.
pub proof fn lemma_parse_wf(s: Seq<char>)
    ensures
        spec_parse(s) matches Ok(ts) ==> tokens_wf(ts),
{
    lemma_tokens_wf(s, 0);
}

/// A reserved word is refused in every identifier position: wherever the
/// maximal identifier run spells `end` or `else`, no identifier parses.
pub proof fn lemma_reserved_identifier_fails(s: Seq<char>, i: int)
    requires
        reserved(s.subrange(i, run_end(s, i, CharClass::Ident))),
    ensures
        spec_identifier(s, i) is None,
{
}

/// A directive whose identifier position holds a reserved word parses
/// neither as a style marker nor as a component reference nor as the head of
/// a conditional.
pub proof fn lemma_reserved_directive_fails(s: Seq<char>, i: int)
    requires
        0 <= i + 1 <= s.len(),
        ({
            let a = run_end(s, i + 1, CharClass::Space);
            reserved(s.subrange(a, run_end(s, a, CharClass::Ident)))
        }),
    ensures
        spec_style(s, i) is None,
        spec_component(s, i) is None,
        spec_cond_header(s, i) is None,
{
    let a = run_end(s, i + 1, CharClass::Space);
    lemma_reserved_identifier_fails(s, a);
    let e = run_end(s, a, CharClass::Ident);
    let id = s.subrange(a, e);
    lemma_run_end(s, i + 1, CharClass::Space);
    lemma_run_end(s, a, CharClass::Ident);
    reveal_strlit("end");
    reveal_strlit("else");
    // both reserved words start with `e`, so the run is nonempty and is no
    // `if`: the conditional head fails at its `i` test
    assert(id.len() > 0);
    assert(id[0] == 'e');
    assert(s[a] == 'e');
}

/// A conditional only ever parses by consuming a closing tag: wherever it
/// succeeds, `{end}` stands somewhere in the input.
pub proof fn lemma_conditional_needs_end(s: Seq<char>, i: int)
    requires
        spec_conditional(s, i) is Some,
    ensures
        exists|k: int| #[trigger] spec_end_tag(s, k),
{
    match spec_cond_header(s, i) {
        None => {},
        Some((j, _condition)) => {
            if i < j <= s.len() {
                match spec_tokens(s, j) {
                    None => {},
                    Some((k, _left)) => {
                        if j < k <= s.len() {
                            if spec_else_tag(s, k) {
                                match spec_tokens(s, k + 6) {
                                    Some((m, _right)) => {
                                        assert(spec_end_tag(s, m));
                                    },
                                    None => {
                                        assert(spec_end_tag(s, k));
                                    },
                                }
                            } else {
                                assert(spec_end_tag(s, k));
                            }
                        }
                    },
                }
            }
        },
    }
}

/// A run is pinned exactly: characters of the class up to `j`, and `j` at
/// the end of the string or at a character outside the class.
proof fn lemma_run_end_exact(s: Seq<char>, i: int, j: int, cl: CharClass)
    requires
        0 <= i <= j <= s.len(),
        forall|k: int| i <= k < j ==> in_class(cl, #[trigger] s[k]),
        j == s.len() || !in_class(cl, s[j]),
    ensures
        run_end(s, i, cl) == j,
    decreases j - i,
{
    if i < j {
        lemma_run_end_exact(s, i + 1, j, cl);
    }
}

/// Whether a token is literal text other than the escaped brace.
pub open spec fn plain_static(t: SpecToken) -> bool {
    match t {
        SpecToken::Static(s) => s != "{{"@,
        _ => false,
    }
}

/// Whether a condition can be spelled back and reread: an
/// environment-variable test names a nonempty identifier that is neither
/// reserved nor the exit-status test's own name.
pub open spec fn rt_condition_wf(c: SpecCondition) -> bool {
    match c {
        SpecCondition::LastCommandStatus => true,
        SpecCondition::EnvironmentVariable(n) => n.len() > 0 && !reserved(n) && n
            != "last_command_status"@ && (forall|k: int|
            0 <= k < n.len() ==> in_class(CharClass::Ident, #[trigger] n[k])),
    }
}

/// Whether a token can be spelled back and reread: literal text is either
/// the escaped brace or nonempty without `{`, component references are left
/// out, and a conditional's parts are again such tokens.
pub open spec fn rt_token_wf(t: SpecToken) -> bool
    decreases t,
{
    match t {
        SpecToken::Static(s) => s == "{{"@ || (s.len() > 0 && (forall|k: int|
            0 <= k < s.len() ==> #[trigger] s[k] != '{')),
        SpecToken::Color(_) => true,
        SpecToken::Reset => true,
        SpecToken::Component { .. } => false,
        SpecToken::Conditional { condition, left, right } => rt_condition_wf(condition)
            && left.len() > 0 && rt_tokens_wf(left) && (match right {
            Some(r) => r.len() > 0 && rt_tokens_wf(r),
            None => true,
        }),
    }
}

/// Whether a token sequence can be spelled back and reread: each token can,
/// and no plain literal is followed by another plain literal (a maximal run
/// cannot stop short of more literal text).
pub open spec fn rt_tokens_wf(ts: Seq<SpecToken>) -> bool
    decreases ts,
{
    if ts.len() == 0 {
        true
    } else {
        rt_token_wf(ts[0]) && rt_tokens_wf(ts.drop_first()) && (ts.len() > 1 && plain_static(
            ts[0],
        ) ==> !plain_static(ts[1]))
    }
}

/// Two sequences differ when their lengths differ or one position does.
proof fn lemma_seq_ne_at(a: Seq<char>, b: Seq<char>, k: int)
    requires
        a.len() != b.len() || (0 <= k < a.len() && k < b.len() && a[k] != b[k]),
    ensures
        a != b,
{
    if a == b && a.len() == b.len() {
        assert(a[k] == b[k]);
    }
}

/// A color keyword is a nonempty unreserved identifier that names its color.
proof fn lemma_color_keyword_props(col: Color)
    ensures
        color_keyword(col).len() > 0,
        forall|k: int|
            0 <= k < color_keyword(col).len() ==> in_class(
                CharClass::Ident,
                #[trigger] color_keyword(col)[k],
            ),
        !reserved(color_keyword(col)),
        style_token_of(color_keyword(col)) == Some(SpecToken::Color(col)),
{
    reveal_strlit("reset");
    reveal_strlit("black");
    reveal_strlit("red");
    reveal_strlit("green");
    reveal_strlit("yellow");
    reveal_strlit("blue");
    reveal_strlit("magenta");
    reveal_strlit("cyan");
    reveal_strlit("white");
    reveal_strlit("end");
    reveal_strlit("else");
    match col {
        Color::Black => {
            lemma_seq_ne_at("black"@, "reset"@, 0);
            lemma_seq_ne_at("black"@, "end"@, 0);
            lemma_seq_ne_at("black"@, "else"@, 0);
        },
        Color::Red => {
            lemma_seq_ne_at("red"@, "reset"@, 0);
            lemma_seq_ne_at("red"@, "black"@, 0);
            lemma_seq_ne_at("red"@, "end"@, 0);
            lemma_seq_ne_at("red"@, "else"@, 0);
        },
        Color::Green => {
            lemma_seq_ne_at("green"@, "reset"@, 0);
            lemma_seq_ne_at("green"@, "black"@, 0);
            lemma_seq_ne_at("green"@, "red"@, 0);
            lemma_seq_ne_at("green"@, "end"@, 0);
            lemma_seq_ne_at("green"@, "else"@, 0);
        },
        Color::Yellow => {
            lemma_seq_ne_at("yellow"@, "reset"@, 0);
            lemma_seq_ne_at("yellow"@, "black"@, 0);
            lemma_seq_ne_at("yellow"@, "red"@, 0);
            lemma_seq_ne_at("yellow"@, "green"@, 0);
            lemma_seq_ne_at("yellow"@, "end"@, 0);
            lemma_seq_ne_at("yellow"@, "else"@, 0);
        },
        Color::Blue => {
            lemma_seq_ne_at("blue"@, "reset"@, 0);
            lemma_seq_ne_at("blue"@, "black"@, 2);
            lemma_seq_ne_at("blue"@, "red"@, 0);
            lemma_seq_ne_at("blue"@, "green"@, 0);
            lemma_seq_ne_at("blue"@, "yellow"@, 0);
            lemma_seq_ne_at("blue"@, "end"@, 0);
            lemma_seq_ne_at("blue"@, "else"@, 0);
        },
        Color::Magenta => {
            lemma_seq_ne_at("magenta"@, "reset"@, 0);
            lemma_seq_ne_at("magenta"@, "black"@, 0);
            lemma_seq_ne_at("magenta"@, "red"@, 0);
            lemma_seq_ne_at("magenta"@, "green"@, 0);
            lemma_seq_ne_at("magenta"@, "yellow"@, 0);
            lemma_seq_ne_at("magenta"@, "blue"@, 0);
            lemma_seq_ne_at("magenta"@, "end"@, 0);
            lemma_seq_ne_at("magenta"@, "else"@, 0);
        },
        Color::Cyan => {
            lemma_seq_ne_at("cyan"@, "reset"@, 0);
            lemma_seq_ne_at("cyan"@, "black"@, 0);
            lemma_seq_ne_at("cyan"@, "red"@, 0);
            lemma_seq_ne_at("cyan"@, "green"@, 0);
            lemma_seq_ne_at("cyan"@, "yellow"@, 0);
            lemma_seq_ne_at("cyan"@, "blue"@, 0);
            lemma_seq_ne_at("cyan"@, "magenta"@, 0);
            lemma_seq_ne_at("cyan"@, "end"@, 0);
            lemma_seq_ne_at("cyan"@, "else"@, 0);
        },
        Color::White => {
            lemma_seq_ne_at("white"@, "reset"@, 0);
            lemma_seq_ne_at("white"@, "black"@, 0);
            lemma_seq_ne_at("white"@, "red"@, 0);
            lemma_seq_ne_at("white"@, "green"@, 0);
            lemma_seq_ne_at("white"@, "yellow"@, 0);
            lemma_seq_ne_at("white"@, "blue"@, 0);
            lemma_seq_ne_at("white"@, "magenta"@, 0);
            lemma_seq_ne_at("white"@, "cyan"@, 0);
            lemma_seq_ne_at("white"@, "end"@, 0);
            lemma_seq_ne_at("white"@, "else"@, 0);
        },
    }
}

/// Every token's spelling is nonempty, and every spelling but a plain
/// literal's opens with `{`.
proof fn lemma_serialize_token_head(t: SpecToken)
    requires
        rt_token_wf(t),
    ensures
        spec_serialize_token(t).len() > 0,
        !plain_static(t) ==> spec_serialize_token(t)[0] == '{',
    decreases t,
{
    reveal_strlit("{{");
    reveal_strlit("{");
    reveal_strlit("}");
    reveal_strlit("{reset}");
    reveal_strlit("{if ");
    match t {
        SpecToken::Color(c) => {
            lemma_color_keyword_props(c);
        },
        _ => {},
    }
}

/// A condition keyword is a nonempty unreserved identifier that names its
/// condition.
proof fn lemma_condition_keyword_props(c: SpecCondition)
    requires
        rt_condition_wf(c),
    ensures
        condition_keyword(c).len() > 0,
        forall|k: int|
            0 <= k < condition_keyword(c).len() ==> in_class(
                CharClass::Ident,
                #[trigger] condition_keyword(c)[k],
            ),
        !reserved(condition_keyword(c)),
        condition_of(condition_keyword(c)) == c,
{
    reveal_strlit("last_command_status");
    reveal_strlit("end");
    reveal_strlit("else");
    match c {
        SpecCondition::LastCommandStatus => {
            lemma_seq_ne_at("last_command_status"@, "end"@, 0);
            lemma_seq_ne_at("last_command_status"@, "else"@, 0);
        },
        SpecCondition::EnvironmentVariable(_n) => {},
    }
}

/// The spelling of a nonempty well-formed token sequence is nonempty.
proof fn lemma_serialize_tokens_len(ts: Seq<SpecToken>)
    requires
        rt_tokens_wf(ts),
        ts.len() > 0,
    ensures
        spec_serialize_tokens(ts).len() > 0,
{
    lemma_serialize_token_head(ts[0]);
}

/// At a closing or branching tag, no token parses: the tag's word is
/// reserved, and nothing else accepts the opening brace before an `e`.
proof fn lemma_token_fails_at_tag(s: Seq<char>, k: int)
    requires
        0 <= k,
        spec_end_tag(s, k) || spec_else_tag(s, k),
    ensures
        spec_token(s, k) is None,
{
    reveal_strlit("end");
    reveal_strlit("else");
    assert(run_end(s, k, CharClass::Text) == k);
    assert(run_end(s, k + 1, CharClass::Space) == k + 1);
    if spec_end_tag(s, k) {
        lemma_run_end_exact(s, k + 1, k + 4, CharClass::Ident);
        assert(s.subrange(k + 1, k + 4) =~= "end"@);
        assert(spec_identifier(s, k + 1) is None);
    } else {
        lemma_run_end_exact(s, k + 1, k + 5, CharClass::Ident);
        assert(s.subrange(k + 1, k + 5) =~= "else"@);
        assert(spec_identifier(s, k + 1) is None);
    }
    assert(spec_style(s, k) is None);
    assert(spec_cond_header(s, k) is None);
    assert(spec_conditional(s, k) is None);
    assert(spec_component(s, k) is None);
}

/// A style-shaped directive — a brace, a keyword, a brace — rereads to the
/// token its keyword names.
proof fn rt_style_token(s: Seq<char>, i: int, kw: Seq<char>, tok: SpecToken)
    requires
        0 <= i,
        kw.len() > 0,
        forall|k: int| 0 <= k < kw.len() ==> in_class(CharClass::Ident, #[trigger] kw[k]),
        !reserved(kw),
        style_token_of(kw) == Some(tok),
        i + kw.len() + 2 <= s.len(),
        s[i] == '{',
        s[i + 1 + kw.len()] == '}',
        forall|d: int| 0 <= d < kw.len() ==> s[i + 1 + d] == #[trigger] kw[d],
    ensures
        spec_token(s, i) == Some((i + kw.len() + 2, tok)),
{
    let b = i + 1 + kw.len();
    assert(run_end(s, i, CharClass::Text) == i);
    assert(s[i + 1] == kw[0]);
    assert(in_class(CharClass::Ident, kw[0]));
    assert(s[i + 1] != '{');
    assert(spec_escaped(s, i) is None);
    assert(run_end(s, i + 1, CharClass::Space) == i + 1);
    assert forall|k: int| i + 1 <= k < b implies in_class(CharClass::Ident, #[trigger] s[k]) by {
        assert(s[k] == kw[k - (i + 1)]);
    }
    lemma_run_end_exact(s, i + 1, b, CharClass::Ident);
    assert(s.subrange(i + 1, b) =~= kw);
    assert(run_end(s, b, CharClass::Space) == b);
    assert(spec_style(s, i) == Some((b + 1, tok)));
}

/// One well-formed token rereads from its spelling, wherever that spelling
/// stands; a plain literal additionally needs the text after it to stop its
/// maximal run.
#[verifier::rlimit(100)]
proof fn rt_token(s: Seq<char>, i: int, t: SpecToken)
    requires
        0 <= i,
        rt_token_wf(t),
        i + spec_serialize_token(t).len() <= s.len(),
        s.subrange(i, i + spec_serialize_token(t).len()) == spec_serialize_token(t),
        plain_static(t) ==> (i + spec_serialize_token(t).len() == s.len() || s[i
            + spec_serialize_token(t).len()] == '{'),
    ensures
        spec_token(s, i) == Some((i + spec_serialize_token(t).len(), t)),
    decreases t,
{
    let ser = spec_serialize_token(t);
    let ll = ser.len() as int;
    assert forall|d: int| 0 <= d < ll implies s[i + d] == #[trigger] ser[d] by {
        assert(s.subrange(i, i + ll)[d] == s[i + d]);
    }
    reveal_strlit("{");
    reveal_strlit("}");
    reveal_strlit("{{");
    reveal_strlit("{reset}");
    reveal_strlit("{if ");
    reveal_strlit("{else}");
    reveal_strlit("{end}");
    match t {
        SpecToken::Static(c) => {
            if c == "{{"@ {
                assert(ser == "{{"@);
                assert(ser[0] == '{' && ser[1] == '{');
                assert(s[i] == '{' && s[i + 1] == '{');
                assert(run_end(s, i, CharClass::Text) == i);
                assert(s.subrange(i, i + 2) =~= "{{"@);
                assert(spec_escaped(s, i) == Some((i + 2, SpecToken::Static(s.subrange(i, i + 2)))));
            } else {
                assert forall|k: int| i <= k < i + ll implies in_class(
                    CharClass::Text,
                    #[trigger] s[k],
                ) by {
                    assert(s[k] == c[k - i]);
                }
                lemma_run_end_exact(s, i, i + ll, CharClass::Text);
                assert(s.subrange(i, i + ll) =~= c);
                assert(spec_static(s, i) == Some((i + ll, SpecToken::Static(c))));
            }
        },
        SpecToken::Color(col) => {
            lemma_color_keyword_props(col);
            let kw = color_keyword(col);
            assert(ser[0] == '{');
            assert(ser[1 + kw.len() as int] == '}');
            assert forall|d: int| 0 <= d < kw.len() implies s[i + 1 + d] == #[trigger] kw[d] by {
                assert(ser[1 + d] == kw[d]);
                assert(s[i + (1 + d)] == ser[1 + d]);
            }
            rt_style_token(s, i, kw, SpecToken::Color(col));
        },
        SpecToken::Reset => {
            reveal_strlit("reset");
            reveal_strlit("end");
            reveal_strlit("else");
            let kw = "reset"@;
            lemma_seq_ne_at(kw, "end"@, 0);
            lemma_seq_ne_at(kw, "else"@, 0);
            assert(style_token_of(kw) == Some(SpecToken::Reset));
            assert(ser[0] == '{');
            assert(ser[6] == '}');
            assert forall|d: int| 0 <= d < kw.len() implies s[i + 1 + d] == #[trigger] kw[d] by {
                assert(ser[1 + d] == kw[d]);
                assert(s[i + (1 + d)] == ser[1 + d]);
            }
            rt_style_token(s, i, kw, SpecToken::Reset);
        },
        SpecToken::Component { .. } => {
            assert(false);
        },
        SpecToken::Conditional { condition, left, right } => {
            lemma_condition_keyword_props(condition);
            let ckw = condition_keyword(condition);
            let cl = ckw.len() as int;
            let lser = spec_serialize_tokens(left);
            let eser: Seq<char> = match right {
                Some(r) => "{else}"@ + spec_serialize_tokens(r),
                None => Seq::empty(),
            };
            assert(ser =~= "{if "@ + ckw + "}"@ + lser + eser + "{end}"@);
            let hdr_end = i + 5 + cl;
            let le = hdr_end + lser.len();
            let ee = le + eser.len();
            assert(s[i] == '{' && s[i + 1] == 'i' && s[i + 2] == 'f' && s[i + 3] == ' ') by {
                assert(ser[0] == '{' && ser[1] == 'i' && ser[2] == 'f' && ser[3] == ' ');
            }
            assert forall|d: int| 0 <= d < cl implies s[i + 4 + d] == #[trigger] ckw[d] by {
                assert(ser[4 + d] == ckw[d]);
                assert(s[i + (4 + d)] == ser[4 + d]);
            }
            assert(s[i + 4 + cl] == '}') by {
                assert(ser[4 + cl] == '}');
            }
            assert forall|d: int| 0 <= d < lser.len() implies s[hdr_end + d] == #[trigger] lser[d]
                by {
                assert(ser[5 + cl + d] == lser[d]);
                assert(s[i + (5 + cl + d)] == ser[5 + cl + d]);
            }
            assert forall|d: int| 0 <= d < eser.len() implies s[le + d] == #[trigger] eser[d] by {
                assert(ser[5 + cl + lser.len() + d] == eser[d]);
                assert(s[i + (5 + cl + lser.len() + d)] == ser[5 + cl + lser.len() + d]);
            }
            assert(spec_end_tag(s, ee)) by {
                assert(ser[ll - 5] == '{' && ser[ll - 4] == 'e' && ser[ll - 3] == 'n' && ser[ll - 2]
                    == 'd' && ser[ll - 1] == '}');
                assert(s[i + (ll - 5)] == ser[ll - 5]);
                assert(s[i + (ll - 4)] == ser[ll - 4]);
                assert(s[i + (ll - 3)] == ser[ll - 3]);
                assert(s[i + (ll - 2)] == ser[ll - 2]);
                assert(s[i + (ll - 1)] == ser[ll - 1]);
            }
            // no other alternative accepts the opening
            assert(run_end(s, i, CharClass::Text) == i);
            assert(spec_escaped(s, i) is None);
            assert(run_end(s, i + 1, CharClass::Space) == i + 1);
            lemma_run_end_exact(s, i + 1, i + 3, CharClass::Ident);
            let id2 = s.subrange(i + 1, i + 3);
            assert(id2 =~= seq!['i', 'f']);
            reveal_strlit("reset");
            reveal_strlit("black");
            reveal_strlit("red");
            reveal_strlit("green");
            reveal_strlit("yellow");
            reveal_strlit("blue");
            reveal_strlit("magenta");
            reveal_strlit("cyan");
            reveal_strlit("white");
            reveal_strlit("end");
            reveal_strlit("else");
            assert(style_token_of(id2) is None);
            assert(spec_style(s, i) is None);
            // the conditional head parses up to the closing brace
            assert(run_end(s, i + 3, CharClass::Space) == run_end(s, i + 4, CharClass::Space));
            assert(in_class(CharClass::Ident, ckw[0]));
            assert(s[i + 4] == ckw[0]);
            assert(run_end(s, i + 4, CharClass::Space) == i + 4);
            assert forall|k: int| i + 4 <= k < i + 4 + cl implies in_class(
                CharClass::Ident,
                #[trigger] s[k],
            ) by {
                assert(s[i + 4 + (k - i - 4)] == ckw[k - i - 4]);
            }
            lemma_run_end_exact(s, i + 4, i + 4 + cl, CharClass::Ident);
            assert(s.subrange(i + 4, i + 4 + cl) =~= ckw);
            assert(spec_cond_header(s, i) == Some((hdr_end, condition)));
            // the left branch parses and stops exactly at the next tag
            lemma_serialize_tokens_len(left);
            if right is Some {
                assert(spec_else_tag(s, le)) by {
                    assert(eser[0] == '{' && eser[1] == 'e' && eser[2] == 'l' && eser[3] == 's'
                        && eser[4] == 'e' && eser[5] == '}');
                }
                lemma_token_fails_at_tag(s, le);
            } else {
                assert(le == ee);
                lemma_token_fails_at_tag(s, le);
            }
            assert(s.subrange(hdr_end, le) =~= lser);
            rt_tokens(s, hdr_end, left);
            assert(spec_tokens(s, hdr_end) == Some((le, left)));
            match right {
                None => {
                    assert(!spec_else_tag(s, le)) by {
                        if spec_else_tag(s, le) {
                            assert(s[le + 2] == 'l');
                            assert(s[le + 2] == 'n');
                        }
                    }
                    assert(spec_conditional(s, i) == Some(
                        (le + 5, SpecToken::Conditional { condition, left, right: None }),
                    ));
                },
                Some(r) => {
                    let rser = spec_serialize_tokens(r);
                    assert(eser =~= "{else}"@ + rser);
                    assert(spec_else_tag(s, le));
                    lemma_serialize_tokens_len(r);
                    let re = le + 6 + rser.len();
                    assert(re == ee);
                    lemma_token_fails_at_tag(s, re);
                    assert forall|d: int| 0 <= d < rser.len() implies s[le + 6 + d]
                        == #[trigger] rser[d] by {
                        assert(eser[6 + d] == rser[d]);
                        assert(s[le + (6 + d)] == eser[6 + d]);
                    }
                    assert(s.subrange(le + 6, re) =~= rser);
                    rt_tokens(s, le + 6, r);
                    assert(spec_tokens(s, le + 6) == Some((re, r)));
                    assert(spec_conditional(s, i) == Some(
                        (re + 5, SpecToken::Conditional { condition, left, right: Some(r) }),
                    ));
                },
            }
        },
    }
}

/// A nonempty well-formed token sequence rereads from its spelling wherever
/// it stands, provided no token can parse right after it.
proof fn rt_tokens(s: Seq<char>, i: int, ts: Seq<SpecToken>)
    requires
        0 <= i,
        rt_tokens_wf(ts),
        ts.len() > 0,
        i + spec_serialize_tokens(ts).len() <= s.len(),
        s.subrange(i, i + spec_serialize_tokens(ts).len()) == spec_serialize_tokens(ts),
        spec_token(s, i + spec_serialize_tokens(ts).len()) is None,
    ensures
        spec_tokens(s, i) == Some((i + spec_serialize_tokens(ts).len(), ts)),
    decreases ts,
{
    let ser = spec_serialize_tokens(ts);
    let ll = ser.len() as int;
    let j = i + ll;
    assert forall|d: int| 0 <= d < ll implies s[i + d] == #[trigger] ser[d] by {
        assert(s.subrange(i, i + ll)[d] == s[i + d]);
    }
    let t0 = ts[0];
    let rest = ts.drop_first();
    let ser0 = spec_serialize_token(t0);
    let serr = spec_serialize_tokens(rest);
    assert(ser == ser0 + serr);
    let m = i + ser0.len();
    lemma_serialize_token_head(t0);
    // where the first token's run must stop
    if plain_static(t0) {
        if rest.len() > 0 {
            assert(!plain_static(rest[0]));
            assert(rt_tokens_wf(rest));
            assert(rt_token_wf(rest[0]));
            lemma_serialize_token_head(rest[0]);
            assert(s[m] == '{') by {
                assert(serr == spec_serialize_token(rest[0]) + spec_serialize_tokens(
                    rest.drop_first(),
                ));
                assert(serr[0] == '{');
                assert(ser[ser0.len() as int] == serr[0]);
                assert(s[i + ser0.len()] == ser[ser0.len() as int]);
            }
        } else {
            assert(serr =~= Seq::<char>::empty());
            assert(m == j);
            if m < s.len() && s[m] != '{' {
                lemma_run_end(s, m + 1, CharClass::Text);
                assert(run_end(s, m, CharClass::Text) == run_end(s, m + 1, CharClass::Text));
                assert(spec_static(s, m) is Some);
                assert(false);
            }
        }
    }
    assert forall|d: int| 0 <= d < ser0.len() implies s.subrange(i, m)[d] == #[trigger] ser0[d] by {
        assert(ser[d] == ser0[d]);
        assert(s.subrange(i, m)[d] == s[i + d]);
    }
    assert(s.subrange(i, m) =~= ser0);
    rt_token(s, i, t0);
    assert(spec_token(s, i) == Some((m, t0)));
    assert(ser0.len() > 0);
    if rest.len() == 0 {
        assert(m == j);
        assert(spec_tokens(s, m) is None);
        assert(seq![t0] =~= ts);
    } else {
        assert forall|d: int| 0 <= d < serr.len() implies s.subrange(m, j)[d] == #[trigger] serr[d]
            by {
            assert(ser[ser0.len() + d] == serr[d]);
            assert(s[i + (ser0.len() + d)] == ser[ser0.len() + d]);
            assert(s.subrange(m, j)[d] == s[m + d]);
        }
        assert(s.subrange(m, j) =~= serr);
        rt_tokens(s, m, rest);
        assert(spec_tokens(s, m) == Some((j, rest)));
        assert(seq![t0] + rest =~= ts);
    }
}

/// Spelling a well-formed token sequence back in template syntax and parsing
/// it again yields the same sequence. This covers every tree without
/// component references; a component's option list reads on past its closing
/// brace when an `=` follows later in the template, so its round trip
/// depends on the surrounding text and is not stated here.
pub proof fn lemma_serialize_parse_round_trip(ts: Seq<SpecToken>)
    requires
        rt_tokens_wf(ts),
        ts.len() > 0,
    ensures
        spec_parse(spec_serialize_tokens(ts)) == Ok::<Seq<SpecToken>, Seq<char>>(ts),
{
    let s = spec_serialize_tokens(ts);
    assert(s.subrange(0, s.len() as int) =~= s);
    assert(spec_token(s, s.len() as int) is None);
    rt_tokens(s, 0, ts);
}

/// Whether one token holds no component reference anywhere.
pub open spec fn token_component_free(t: SpecToken) -> bool
    decreases t,
{
    match t {
        SpecToken::Component { .. } => false,
        SpecToken::Conditional { condition: _, left, right } => component_free(left) && (match right {
            Some(r) => component_free(r),
            None => true,
        }),
        _ => true,
    }
}

/// Whether a token sequence holds no component reference anywhere.
pub open spec fn component_free(ts: Seq<SpecToken>) -> bool
    decreases ts,
{
    if ts.len() == 0 {
        true
    } else {
        token_component_free(ts[0]) && component_free(ts.drop_first())
    }
}

/// A parsed conditional, when component-free, can be spelled back.
proof fn lemma_parsed_conditional_rt_wf(s: Seq<char>, i: int)
    requires
        0 <= i <= s.len(),
    ensures
        spec_conditional(s, i) matches Some(p) ==> (token_component_free(p.1) ==> rt_token_wf(
            p.1,
        )),
    decreases s.len() - i, 0int,
{
    if i < s.len() && s[i] == '{' {
        let a = run_end(s, i + 1, CharClass::Space);
        lemma_run_end(s, i + 1, CharClass::Space);
        if a + 2 <= s.len() && s[a] == 'i' && s[a + 1] == 'f' {
            let b = run_end(s, a + 2, CharClass::Space);
            lemma_run_end(s, a + 2, CharClass::Space);
            let e = run_end(s, b, CharClass::Ident);
            lemma_run_end(s, b, CharClass::Ident);
            match spec_identifier(s, b) {
                Some((_c, id)) => {
                    assert(e > b && id == s.subrange(b, e));
                    assert(id.len() == e - b);
                    assert forall|k: int| 0 <= k < id.len() implies in_class(
                        CharClass::Ident,
                        #[trigger] id[k],
                    ) by {
                        assert(id[k] == s[b + k]);
                    }
                    assert(rt_condition_wf(condition_of(id)));
                },
                None => {},
            }
        }
    }
    match spec_cond_header(s, i) {
        None => {},
        Some((j, _condition)) => {
            if i < j <= s.len() {
                match spec_tokens(s, j) {
                    None => {},
                    Some((k, _left)) => {
                        if j < k <= s.len() {
                            lemma_parsed_tokens_rt_wf(s, j);
                            if spec_else_tag(s, k) {
                                lemma_parsed_tokens_rt_wf(s, k + 6);
                            }
                        }
                    },
                }
            }
        },
    }
}

/// A parsed token, when component-free, can be spelled back; a plain literal
/// from the parser is a maximal run.
proof fn lemma_parsed_token_rt_wf(s: Seq<char>, i: int)
    requires
        0 <= i <= s.len(),
    ensures
        spec_token(s, i) matches Some(p) ==> {
            &&& (token_component_free(p.1) ==> rt_token_wf(p.1))
            &&& (plain_static(p.1) ==> i < s.len() && s[i] != '{' && p.0 == run_end(
                s,
                i,
                CharClass::Text,
            ))
        },
    decreases s.len() - i, 1int,
{
    reveal_strlit("{{");
    if i < s.len() {
        if spec_static(s, i) is Some {
            let j = run_end(s, i, CharClass::Text);
            lemma_run_end(s, i, CharClass::Text);
            let c = s.subrange(i, j);
            assert forall|k: int| 0 <= k < c.len() implies #[trigger] c[k] != '{' by {
                assert(c[k] == s[i + k]);
                assert(in_class(CharClass::Text, s[i + k]));
            }
        } else if spec_escaped(s, i) is Some {
            assert(s.subrange(i, i + 2) =~= "{{"@);
        } else if spec_style(s, i) is Some {
            let a = run_end(s, i + 1, CharClass::Space);
            match spec_identifier(s, a) {
                Some((_b, id)) => {
                    assert(match style_token_of(id) {
                        Some(tok) => tok matches SpecToken::Color(_) || tok is Reset,
                        None => true,
                    });
                },
                None => {},
            }
        } else if spec_conditional(s, i) is Some {
            lemma_parsed_conditional_rt_wf(s, i);
        } else {
        }
    }
}

/// A parsed token sequence is nonempty and, when component-free, can be
/// spelled back.
proof fn lemma_parsed_tokens_rt_wf(s: Seq<char>, i: int)
    requires
        0 <= i <= s.len(),
    ensures
        spec_tokens(s, i) matches Some(p) ==> p.1.len() > 0 && (component_free(p.1)
            ==> rt_tokens_wf(p.1)),
    decreases s.len() - i, 2int,
{
    match spec_token(s, i) {
        None => {},
        Some((j, t)) => {
            if i < j <= s.len() {
                lemma_parsed_token_rt_wf(s, i);
                match spec_tokens(s, j) {
                    None => {
                        let ts = seq![t];
                        assert(ts.drop_first() =~= Seq::<SpecToken>::empty());
                        assert(ts[0] == t);
                        if component_free(ts) {
                            assert(token_component_free(t));
                            assert(component_free(Seq::<SpecToken>::empty()));
                            assert(rt_tokens_wf(Seq::<SpecToken>::empty()));
                            assert(rt_tokens_wf(ts));
                        }
                    },
                    Some((_k, rest)) => {
                        lemma_parsed_tokens_rt_wf(s, j);
                        let ts = seq![t] + rest;
                        assert(ts.drop_first() =~= rest);
                        assert(ts[0] == t);
                        if component_free(ts) {
                            assert(token_component_free(t));
                            assert(component_free(rest));
                            // a plain literal is never followed by another:
                            // its run is maximal, so the next token starts at
                            // a brace, where no plain literal parses
                            if plain_static(t) && rest.len() > 0 {
                                lemma_run_end(s, i, CharClass::Text);
                                lemma_parsed_token_rt_wf(s, j);
                                match spec_token(s, j) {
                                    Some((_m, t2)) => {
                                        assert(j < s.len());
                                        assert(!in_class(CharClass::Text, s[j]));
                                        assert(s[j] == '{');
                                        assert(!plain_static(t2));
                                        assert(rest[0] == t2);
                                    },
                                    None => {
                                        assert(false);
                                    },
                                }
                            }
                            assert(rt_tokens_wf(ts));
                        }
                    },
                }
            }
        },
    }
}

/// Re-serializing what a successful parse yields, and parsing that, gives
/// the same token tree, for every template whose tree holds no component
/// reference (a component's option list reads on past its closing brace when
/// an `=` follows later in the template, so its round trip depends on the
/// surrounding text).
pub proof fn lemma_parse_round_trip(s: Seq<char>)
    ensures
        spec_parse(s) matches Ok(ts) ==> (component_free(ts) ==> spec_parse(
            spec_serialize_tokens(ts),
        ) == Ok::<Seq<SpecToken>, Seq<char>>(ts)),
{
    match spec_tokens(s, 0) {
        None => {},
        Some((j, ts)) => {
            if j == s.len() {
                lemma_parsed_tokens_rt_wf(s, 0);
                if component_free(ts) {
                    lemma_serialize_parse_round_trip(ts);
                }
            }
        },
    }
}

/// Whether the opening `{if` of a conditional stands at `q`.
pub open spec fn spec_if_tag(s: Seq<char>, q: int) -> bool {
    q + 3 <= s.len() && s[q] == '{' && s[q + 1] == 'i' && s[q + 2] == 'f'
}

/// With no `=` in the input, no `key=value` option can parse anywhere.
proof fn lemma_no_eq_no_options(s: Seq<char>, x: int)
    requires
        0 <= x <= s.len(),
        forall|k: int| 0 <= k < s.len() ==> s[k] != '=',
    ensures
        spec_key_values(s, x) == (x, Seq::<(Seq<char>, Seq<char>)>::empty()),
{
    let a = run_end(s, x, CharClass::Space);
    lemma_run_end(s, x, CharClass::Space);
    let b = run_end(s, a, CharClass::Key);
    lemma_run_end(s, a, CharClass::Key);
    assert(spec_key_value(s, x) is None);
}

/// A style marker's region holds `{` only at its start, and its second
/// character is never `i`.
proof fn lemma_style_region(s: Seq<char>, i: int)
    requires
        0 <= i <= s.len(),
    ensures
        spec_style(s, i) matches Some(p) ==> i < p.0 <= s.len() && s[i] == '{' && s[i + 1] != 'i'
            && (forall|q: int| i < q < p.0 ==> s[q] != '{'),
{
    if spec_style(s, i) is Some {
        let a = run_end(s, i + 1, CharClass::Space);
        lemma_run_end(s, i + 1, CharClass::Space);
        let b = run_end(s, a, CharClass::Ident);
        lemma_run_end(s, a, CharClass::Ident);
        let id = s.subrange(a, b);
        let c = run_end(s, b, CharClass::Space);
        lemma_run_end(s, b, CharClass::Space);
        assert(b > a);
        assert(style_token_of(id) is Some);
        if s[i + 1] == 'i' {
            assert(run_end(s, i + 1, CharClass::Space) == i + 1);
            assert(id[0] == 'i');
            reveal_strlit("reset");
            reveal_strlit("black");
            reveal_strlit("red");
            reveal_strlit("green");
            reveal_strlit("yellow");
            reveal_strlit("blue");
            reveal_strlit("magenta");
            reveal_strlit("cyan");
            reveal_strlit("white");
            assert(false);
        }
        assert forall|q: int| i < q < c + 1 implies s[q] != '{' by {
            if q < a {
                assert(in_class(CharClass::Space, s[q]));
            } else if q < b {
                assert(in_class(CharClass::Ident, s[q]));
            } else if q < c {
                assert(in_class(CharClass::Space, s[q]));
            } else {
                assert(s[q] == '}');
            }
        }
    }
}

/// With no `=` in the input, a component reference's region holds `{` only
/// at its start, and its second character is never `i`.
proof fn lemma_component_region(s: Seq<char>, i: int)
    requires
        0 <= i <= s.len(),
        forall|k: int| 0 <= k < s.len() ==> s[k] != '=',
    ensures
        spec_component(s, i) matches Some(p) ==> i < p.0 <= s.len() && s[i] == '{' && s[i + 1]
            != 'i' && (forall|q: int| i < q < p.0 ==> s[q] != '{'),
{
    if spec_component(s, i) is Some {
        let a = run_end(s, i + 1, CharClass::Space);
        lemma_run_end(s, i + 1, CharClass::Space);
        let b = run_end(s, a, CharClass::Ident);
        lemma_run_end(s, a, CharClass::Ident);
        let id = s.subrange(a, b);
        assert(b > a);
        lemma_no_eq_no_options(s, b);
        let d = run_end(s, b, CharClass::Space);
        lemma_run_end(s, b, CharClass::Space);
        assert(component_of(id) is Some);
        if s[i + 1] == 'i' {
            assert(run_end(s, i + 1, CharClass::Space) == i + 1);
            assert(id[0] == 'i');
            reveal_strlit("cwd");
            reveal_strlit("git_branch");
            reveal_strlit("git_commit");
            reveal_strlit("git_stash");
            reveal_strlit("git_status");
            reveal_strlit("hostname");
            reveal_strlit("jobs");
            reveal_strlit("user");
            assert(false);
        }
        assert forall|q: int| i < q < d + 1 implies s[q] != '{' by {
            if q < a {
                assert(in_class(CharClass::Space, s[q]));
            } else if q < b {
                assert(in_class(CharClass::Ident, s[q]));
            } else if q < d {
                assert(in_class(CharClass::Space, s[q]));
            } else {
                assert(s[q] == '}');
            }
        }
    }
}

/// In a template with no `=`, no `{{` and no `{end}`, nothing that parses
/// can contain an `{if`: a conditional could never close, and no other
/// alternative's region holds one.
proof fn lemma_no_if_inside_parsed(s: Seq<char>, i: int)
    requires
        0 <= i <= s.len(),
        forall|k: int| 0 <= k < s.len() ==> s[k] != '=',
        forall|k: int| 0 <= k && k + 2 <= s.len() ==> !(s[k] == '{' && #[trigger] s[k + 1] == '{'),
        forall|k: int| !(#[trigger] spec_end_tag(s, k)),
    ensures
        spec_tokens(s, i) matches Some(p) ==> forall|q: int|
            i <= q < p.0 ==> !(#[trigger] spec_if_tag(s, q)),
    decreases s.len() - i,
{
    match spec_token(s, i) {
        None => {},
        Some((m, _t)) => {
            if i < m <= s.len() {
                lemma_no_if_inside_parsed(s, m);
                // the region [i, m) of this one token holds no `{if`
                if spec_static(s, i) is Some {
                    lemma_run_end(s, i, CharClass::Text);
                    assert forall|q: int| i <= q < m implies !spec_if_tag(s, q) by {
                        assert(in_class(CharClass::Text, s[q]));
                    }
                } else if spec_escaped(s, i) is Some {
                    assert(false);
                } else if spec_style(s, i) is Some {
                    lemma_style_region(s, i);
                    assert forall|q: int| i <= q < m implies !spec_if_tag(s, q) by {
                        if q == i {
                            assert(s[i + 1] != 'i');
                        }
                    }
                } else if spec_conditional(s, i) is Some {
                    lemma_conditional_needs_end(s, i);
                    assert(false);
                } else {
                    lemma_component_region(s, i);
                    assert forall|q: int| i <= q < m implies !spec_if_tag(s, q) by {
                        if q == i {
                            assert(s[i + 1] != 'i');
                        }
                    }
                }
            }
        },
    }
}

/// A template that holds an `{if` anywhere, no `{end}`, and — so that the
/// `{if` cannot hide inside an escaped brace or an option — no `{{` and no
/// `=`, never parses.
pub proof fn lemma_contained_unterminated_conditional_fails(s: Seq<char>, q: int)
    requires
        spec_if_tag(s, q),
        0 <= q,
        forall|k: int| 0 <= k < s.len() ==> s[k] != '=',
        forall|k: int| 0 <= k && k + 2 <= s.len() ==> !(s[k] == '{' && #[trigger] s[k + 1] == '{'),
        forall|k: int| !(#[trigger] spec_end_tag(s, k)),
    ensures
        spec_parse(s) is Err,
{
    match spec_tokens(s, 0) {
        None => {},
        Some((j, _ts)) => {
            if j == s.len() {
                lemma_no_if_inside_parsed(s, 0);
                assert(!spec_if_tag(s, q));
                assert(false);
            }
        },
    }
}

/// A template that opens with `{if` and holds no `{end}` anywhere never
/// parses: the conditional cannot close, and no other alternative accepts
/// the opening.
pub proof fn lemma_unterminated_conditional_fails(s: Seq<char>)
    requires
        s.len() >= 3,
        s[0] == '{',
        s[1] == 'i',
        s[2] == 'f',
        forall|k: int| !(#[trigger] spec_end_tag(s, k)),
    ensures
        spec_parse(s) is Err,
{
    // the literal run is empty at `{`
    assert(run_end(s, 0, CharClass::Text) == 0);
    assert(spec_static(s, 0) is None);
    // not an escaped brace
    assert(spec_escaped(s, 0) is None);
    // whitespace after `{` ends at once, and the identifier run starts `if`
    assert(run_end(s, 1, CharClass::Space) == 1);
    let e = run_end(s, 1, CharClass::Ident);
    lemma_run_end(s, 1, CharClass::Ident);
    assert(run_end(s, 1, CharClass::Ident) == run_end(s, 2, CharClass::Ident));
    assert(e >= 2);
    let id = s.subrange(1, e);
    assert(id.len() >= 1);
    assert(id[0] == 'i');
    // no style keyword starts with `i`
    reveal_strlit("reset");
    reveal_strlit("black");
    reveal_strlit("red");
    reveal_strlit("green");
    reveal_strlit("yellow");
    reveal_strlit("blue");
    reveal_strlit("magenta");
    reveal_strlit("cyan");
    reveal_strlit("white");
    assert(style_token_of(id) is None);
    assert(spec_style(s, 0) is None);
    // no component name starts with `i`
    reveal_strlit("cwd");
    reveal_strlit("git_branch");
    reveal_strlit("git_commit");
    reveal_strlit("git_stash");
    reveal_strlit("git_status");
    reveal_strlit("hostname");
    reveal_strlit("jobs");
    reveal_strlit("user");
    assert(component_of(id) is None);
    assert(spec_component(s, 0) is None);
    // the conditional cannot close without an `{end}`
    if spec_conditional(s, 0) is Some {
        lemma_conditional_needs_end(s, 0);
        assert(false);
    }
    assert(spec_token(s, 0) is None);
    assert(spec_tokens(s, 0) is None);
}

/// Pushing one token extends the sequence view by that token's view.
pub proof fn lemma_tokens_view_push(v: Seq<Token>, t: Token)
    ensures
        tokens_view(v.push(t)) == tokens_view(v).push(t@),
{
    assert(tokens_view(v.push(t)) =~= tokens_view(v).push(t@));
}

} // verus!
