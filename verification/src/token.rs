use vstd::prelude::*;
use vstd::string::StringExecFns;

verus! {

/// A style keyword that opens a colored block.
#[derive(Clone, Copy, Debug, PartialEq, Eq, Structural)]
pub enum Color {
    Black,
    Red,
    Green,
    Yellow,
    Blue,
    Magenta,
    Cyan,
    White,
}

/// The closed set of dynamic component names the template language knows.
#[derive(Clone, Copy, Debug, PartialEq, Eq, Structural)]
pub enum Component {
    Cwd,
    GitBranch,
    GitCommit,
    GitStash,
    GitStatus,
    Hostname,
    Jobs,
    User,
}

/// A condition a `{if ...}` block can test.
#[derive(Debug, PartialEq)]
pub enum Condition {
    LastCommandStatus,
    EnvironmentVariable(String),
}

/// Spec-level mirror of `Condition`, over sequences of characters.
pub enum SpecCondition {
    LastCommandStatus,
    EnvironmentVariable(Seq<char>),
}

impl View for Condition {
    type V = SpecCondition;

    open spec fn view(&self) -> SpecCondition {
        match self {
            Condition::LastCommandStatus => SpecCondition::LastCommandStatus,
            Condition::EnvironmentVariable(name) => SpecCondition::EnvironmentVariable(name@),
        }
    }
}

/// An order-preserving key/value mapping for component options.
///
/// Insertion keeps the first position of a key; inserting an existing key
/// overwrites its value in place, so keys stay unique and iteration order
/// (and therefore error-message order) is the order of first appearance.
#[derive(Debug, PartialEq)]
pub struct Options {
    pairs: Vec<(String, String)>,
}

impl View for Options {
    type V = Seq<(Seq<char>, Seq<char>)>;

    closed spec fn view(&self) -> Seq<(Seq<char>, Seq<char>)> {
        Seq::new(self.pairs@.len(), |i: int| (self.pairs@[i].0@, self.pairs@[i].1@))
    }
}

/// A parsed unit of a template.
#[derive(Debug, PartialEq)]
pub enum Token {
    /// Literal characters, emitted verbatim.
    Static(String),
    /// A color-start style marker.
    Color(Color),
    /// A color-reset style marker.
    Reset,
    /// A named dynamic component with its option mapping.
    Component { name: Component, options: Options },
    /// `left` is emitted when `condition` holds, else `right` when present.
    Conditional { condition: Condition, left: Vec<Token>, right: Option<Vec<Token>> },
}

/// Spec-level mirror of `Token`, over sequences of characters.
pub enum SpecToken {
    Static(Seq<char>),
    Color(Color),
    Reset,
    Component { name: Component, options: Seq<(Seq<char>, Seq<char>)> },
    Conditional { condition: SpecCondition, left: Seq<SpecToken>, right: Option<Seq<SpecToken>> },
}

impl View for Token {
    type V = SpecToken;

    open spec fn view(&self) -> SpecToken
        decreases self,
    {
        match self {
            Token::Static(s) => SpecToken::Static(s@),
            Token::Color(c) => SpecToken::Color(*c),
            Token::Reset => SpecToken::Reset,
            Token::Component { name, options } => SpecToken::Component {
                name: *name,
                options: options@,
            },
            Token::Conditional { condition, left, right } => SpecToken::Conditional {
                condition: condition@,
                left: tokens_view(left@),
                right: match right {
                    Some(r) => Some(tokens_view(r@)),
                    None => None,
                },
            },
        }
    }
}

/// The view of a whole token sequence.
///
/// The range test inside the closure is needed so that the recursion is seen
/// to run only over elements of `tokens`.
pub open spec fn tokens_view(tokens: Seq<Token>) -> Seq<SpecToken>
    decreases tokens,
{
    Seq::new(
        tokens.len(),
        |i: int| if 0 <= i < tokens.len() { tokens[i]@ } else { SpecToken::Reset },
    )
}

/// The index of the first entry with key `k`, or `-1` when no entry has it.
pub open spec fn key_index(s: Seq<(Seq<char>, Seq<char>)>, k: Seq<char>) -> int
    decreases s.len(),
{
    if s.len() == 0 {
        -1
    } else if s[0].0 == k {
        0
    } else {
        let r = key_index(s.drop_first(), k);
        if r < 0 {
            -1
        } else {
            r + 1
        }
    }
}

/// What `key_index` finds: the first entry with the key, if any.
pub proof fn lemma_key_index(s: Seq<(Seq<char>, Seq<char>)>, k: Seq<char>)
    ensures
        key_index(s, k) == -1 || (0 <= key_index(s, k) < s.len()),
        key_index(s, k) == -1 ==> forall|i: int| 0 <= i < s.len() ==> (#[trigger] s[i]).0 != k,
        key_index(s, k) >= 0 ==> s[key_index(s, k)].0 == k,
        key_index(s, k) >= 0 ==> forall|i: int| 0 <= i < key_index(s, k) ==> (#[trigger] s[i]).0
            != k,
    decreases s.len(),
{
    if s.len() > 0 && s[0].0 != k {
        lemma_key_index(s.drop_first(), k);
        assert forall|i: int| 1 <= i < s.len() implies s.drop_first()[i - 1] == s[i] by {}
    }
}

/// `key_index` finds exactly the first entry whose key is `k`.
pub proof fn lemma_key_index_found(s: Seq<(Seq<char>, Seq<char>)>, k: Seq<char>, i: int)
    requires
        0 <= i < s.len(),
        s[i].0 == k,
        forall|j: int| 0 <= j < i ==> (#[trigger] s[j]).0 != k,
    ensures
        key_index(s, k) == i,
    decreases s.len(),
{
    if i > 0 {
        lemma_key_index_found(s.drop_first(), k, i - 1);
    }
}

/// When no entry has key `k`, `key_index` reports `-1`.
pub proof fn lemma_key_index_none(s: Seq<(Seq<char>, Seq<char>)>, k: Seq<char>)
    requires
        forall|j: int| 0 <= j < s.len() ==> (#[trigger] s[j]).0 != k,
    ensures
        key_index(s, k) == -1,
    decreases s.len(),
{
    if s.len() > 0 {
        lemma_key_index_none(s.drop_first(), k);
    }
}

/// Character-by-character string comparison.
pub fn str_eq(a: &str, b: &str) -> (r: bool)
    ensures
        r == (a@ == b@),
{
    let la = a.unicode_len();
    let lb = b.unicode_len();
    if la != lb {
        return false;
    }
    for i in 0..la
        invariant
            la == a@.len(),
            la == b@.len(),
            forall|j: int| 0 <= j < i ==> a@[j] == b@[j],
    {
        if a.get_char(i) != b.get_char(i) {
            return false;
        }
    }
    proof {
        assert(a@ =~= b@);
    }
    true
}

/// One entry spelled `key=value`.
pub open spec fn pair_text(p: (Seq<char>, Seq<char>)) -> Seq<char> {
    p.0 + seq!['='] + p.1
}

/// The entries spelled `key=value` and joined with `", "`.
pub open spec fn joined_pairs(s: Seq<(Seq<char>, Seq<char>)>) -> Seq<char>
    decreases s.len(),
{
    if s.len() == 0 {
        Seq::empty()
    } else if s.len() == 1 {
        pair_text(s[0])
    } else {
        joined_pairs(s.drop_last()) + seq![',', ' '] + pair_text(s.last())
    }
}

impl Options {
    /// True when no two entries share a key.
    pub open spec fn keys_unique(&self) -> bool {
        forall|i: int, j: int|
            0 <= i < j < self@.len() ==> (#[trigger] self@[i]).0 != (#[trigger] self@[j]).0
    }

    pub fn new() -> (r: Options)
        ensures
            r@ == Seq::<(Seq<char>, Seq<char>)>::empty(),
    {
        let r = Options { pairs: Vec::new() };
        assert(r@ =~= Seq::<(Seq<char>, Seq<char>)>::empty());
        r
    }

    pub fn len(&self) -> (r: usize)
        ensures
            r == self@.len(),
    {
        self.pairs.len()
    }

    pub fn is_empty(&self) -> (r: bool)
        ensures
            r == (self@.len() == 0),
    {
        self.pairs.len() == 0
    }

    /// Binds `key` to `value`: overwrites the value in place when the key is
    /// already present, else appends a new entry.
    pub fn insert(&mut self, key: String, value: String)
        ensures
            key_index(old(self)@, key@) == -1 ==> final(self)@ == old(self)@.push(
                (key@, value@),
            ),
            key_index(old(self)@, key@) >= 0 ==> final(self)@ == old(self)@.update(
                key_index(old(self)@, key@),
                (key@, value@),
            ),
            old(self).keys_unique() ==> final(self).keys_unique(),
    {
        let n = self.pairs.len();
        for i in 0..n
            invariant
                n == self.pairs.len(),
                self.pairs@ == old(self).pairs@,
                forall|j: int| 0 <= j < i ==> (#[trigger] self@[j]).0 != key@,
        {
            let hit = self.pairs[i].0 == key;
            proof {
                assert(self@[i as int] == (self.pairs@[i as int].0@, self.pairs@[i as int].1@));
            }
            if hit {
                proof {
                    lemma_key_index_found(self@, key@, i as int);
                }
                self.pairs.set(i, (key, value));
                proof {
                    assert(self@ =~= old(self)@.update(i as int, (key@, value@)));
                    // the key at `i` is unchanged, so uniqueness carries over
                    assert forall|a: int| 0 <= a < self@.len() implies (#[trigger] self@[a]).0
                        == old(self)@[a].0 by {}
                }
                return ;
            }
        }
        proof {
            lemma_key_index_none(self@, key@);
            assert(self@ == old(self)@);
        }
        self.pairs.push((key, value));
        assert(self@ =~= old(self)@.push((key@, value@)));
    }

    /// The entry at position `i`.
    pub fn pair(&self, i: usize) -> (r: (&String, &String))
        requires
            i < self@.len(),
        ensures
            r.0@ == self@[i as int].0,
            r.1@ == self@[i as int].1,
    {
        (&self.pairs[i].0, &self.pairs[i].1)
    }

    /// An exact copy of the mapping.
    pub fn clone_opts(&self) -> (r: Options)
        ensures
            r@ == self@,
    {
        let mut pairs: Vec<(String, String)> = Vec::new();
        let n = self.pairs.len();
        for i in 0..n
            invariant
                n == self.pairs@.len(),
                pairs@.len() == i,
                forall|j: int| 0 <= j < i ==> #[trigger] pairs@[j] == self.pairs@[j],
        {
            pairs.push((self.pairs[i].0.clone(), self.pairs[i].1.clone()));
        }
        let r = Options { pairs };
        proof {
            assert(r@ =~= self@);
        }
        r
    }

    /// The value bound to `key`, when the key is present.
    pub fn get(&self, key: &str) -> (r: Option<&String>)
        ensures
            key_index(self@, key@) == -1 <==> r is None,
            r matches Some(v) ==> v@ == self@[key_index(self@, key@)].1,
    {
        let n = self.pairs.len();
        for i in 0..n
            invariant
                n == self.pairs@.len(),
                forall|j: int| 0 <= j < i ==> (#[trigger] self@[j]).0 != key@,
        {
            let hit = str_eq(self.pairs[i].0.as_str(), key);
            proof {
                assert(self@[i as int] == (self.pairs@[i as int].0@, self.pairs@[i as int].1@));
            }
            if hit {
                proof {
                    lemma_key_index_found(self@, key@, i as int);
                }
                return Some(&self.pairs[i].1);
            }
        }
        proof {
            lemma_key_index_none(self@, key@);
        }
        None
    }

    /// Removes the first entry with key `key` and hands its value back.
    pub fn remove(&mut self, key: &str) -> (r: Option<String>)
        ensures
            key_index(old(self)@, key@) == -1 ==> r is None && final(self)@ == old(self)@,
            key_index(old(self)@, key@) >= 0 ==> (r matches Some(v) && v@ == old(self)@[key_index(
                old(self)@,
                key@,
            )].1 && final(self)@ == old(self)@.remove(key_index(old(self)@, key@))),
    {
        let n = self.pairs.len();
        for i in 0..n
            invariant
                n == self.pairs.len(),
                self.pairs@ == old(self).pairs@,
                forall|j: int| 0 <= j < i ==> (#[trigger] self@[j]).0 != key@,
        {
            let hit = str_eq(self.pairs[i].0.as_str(), key);
            proof {
                assert(self@[i as int] == (self.pairs@[i as int].0@, self.pairs@[i as int].1@));
            }
            if hit {
                proof {
                    lemma_key_index_found(self@, key@, i as int);
                }
                let entry = self.pairs.remove(i);
                proof {
                    assert(self@ =~= old(self)@.remove(i as int));
                }
                return Some(entry.1);
            }
        }
        proof {
            lemma_key_index_none(self@, key@);
            assert(self@ == old(self)@);
        }
        None
    }

    /// The entries spelled `key=value`, joined with `", "`, in entry order.
    pub fn joined(&self) -> (r: String)
        ensures
            r@ == joined_pairs(self@),
    {
        let mut out = String::new();
        let n = self.pairs.len();
        for i in 0..n
            invariant
                n == self.pairs.len(),
                out@ == joined_pairs(self@.take(i as int)),
        {
            if i > 0 {
                out.append(", ");
            }
            out.append(self.pairs[i].0.as_str());
            out.append("=");
            out.append(self.pairs[i].1.as_str());
            proof {
                reveal_strlit(", ");
                reveal_strlit("=");
                assert(self@.take(i as int + 1).drop_last() =~= self@.take(i as int));
                assert(self@.take(i as int + 1).last() == self@[i as int]);
                assert(out@ =~= joined_pairs(self@.take(i as int + 1)));
            }
        }
        proof {
            assert(self@.take(n as int) =~= self@);
        }
        out
    }
}

} // verus!
