use vstd::prelude::*;
use vstd::string::StringExecFns;
use vstd::string::StrSliceExecFns;

pub mod color;
pub mod cwd;
pub mod git_stash;
pub mod jobs;
pub mod reset;

use crate::component::cwd::CwdStyle;
use crate::component::git_stash::dec_digits;
use crate::token::{joined_pairs, key_index, str_eq, tokens_view, Condition, Options,
    SpecCondition, SpecToken, Token};
use crate::Shell;

verus! {

/// One rendered fragment. A whole slot can also be absent (`None` in a
/// `Vec<Option<Component>>`): the component had nothing to show.
#[derive(Clone, Debug, PartialEq)]
pub enum Component {
    /// Literal template text.
    Static(String),
    /// A color-start escape code.
    Color(String),
    /// A color-reset escape code.
    ColorReset(String),
    /// Output a dynamic component produced.
    Computed(String),
}

/// Whether a slot holds decorative or literal content: text or color codes.
pub open spec fn decorative(c: Option<Component>) -> bool {
    ||| c matches Some(Component::Static(_))
    ||| c matches Some(Component::Color(_))
    ||| c matches Some(Component::ColorReset(_))
}

/// Whether a slot holds output a dynamic component produced.
pub open spec fn computed(c: Option<Component>) -> bool {
    c matches Some(Component::Computed(_))
}

/// How the fragment sequence is partitioned into segments, walking `s` with
/// the finished groups in `done` and the open group in `cur`:
/// a color-start opens a new group unless the open group is still empty, a
/// color-reset closes the open group behind itself, everything else joins the
/// open group, and a trailing group is kept only when something is in it.
pub open spec fn grouping(
    s: Seq<Option<Component>>,
    done: Seq<Seq<Option<Component>>>,
    cur: Seq<Option<Component>>,
) -> Seq<Seq<Option<Component>>>
    decreases s.len(),
{
    if s.len() == 0 {
        if cur.len() > 0 {
            done.push(cur)
        } else {
            done
        }
    } else {
        let c = s[0];
        let rest = s.drop_first();
        if c matches Some(Component::Color(_)) {
            if cur.len() == 0 {
                grouping(rest, done, cur.push(c))
            } else {
                grouping(rest, done.push(cur), seq![c])
            }
        } else if c matches Some(Component::ColorReset(_)) {
            grouping(rest, done.push(cur.push(c)), Seq::empty())
        } else {
            grouping(rest, done, cur.push(c))
        }
    }
}

/// The segments of a fragment sequence.
pub open spec fn spec_groups(s: Seq<Option<Component>>) -> Seq<Seq<Option<Component>>> {
    grouping(s, Seq::empty(), Seq::empty())
}

/// A segment survives when it is purely decorative with no absent slot, or
/// when at least one of its slots holds computed output.
pub open spec fn spec_keep(g: Seq<Option<Component>>) -> bool {
    (forall|i: int| 0 <= i < g.len() ==> decorative(#[trigger] g[i])) || (exists|i: int|
        0 <= i < g.len() && computed(#[trigger] g[i]))
}

/// The present fragments of a segment, in order, absent slots dropped.
pub open spec fn compact(g: Seq<Option<Component>>) -> Seq<Component>
    decreases g.len(),
{
    if g.len() == 0 {
        Seq::empty()
    } else {
        match g[0] {
            Some(c) => seq![c] + compact(g.drop_first()),
            None => compact(g.drop_first()),
        }
    }
}

/// The surviving segments, flattened, with absent slots dropped.
pub open spec fn squash_groups(gs: Seq<Seq<Option<Component>>>) -> Seq<Component>
    decreases gs.len(),
{
    if gs.len() == 0 {
        Seq::empty()
    } else if spec_keep(gs[0]) {
        compact(gs[0]) + squash_groups(gs.drop_first())
    } else {
        squash_groups(gs.drop_first())
    }
}

/// What squashing a fragment sequence yields.
pub open spec fn spec_squash(s: Seq<Option<Component>>) -> Seq<Component> {
    squash_groups(spec_groups(s))
}

/// Whether no slot of a fragment sequence is absent.
pub open spec fn all_present(s: Seq<Option<Component>>) -> bool {
    forall|i: int| 0 <= i < s.len() ==> (#[trigger] s[i]) is Some
}

/// Every fragment wrapped as a present slot.
pub open spec fn all_some(t: Seq<Component>) -> Seq<Option<Component>> {
    t.map_values(|c: Component| Some(c))
}

/// A segment with no absent slot always survives.
pub proof fn lemma_present_kept(g: Seq<Option<Component>>)
    requires
        all_present(g),
    ensures
        spec_keep(g),
{
    if !(exists|i: int| 0 <= i < g.len() && computed(#[trigger] g[i])) {
        assert forall|i: int| 0 <= i < g.len() implies decorative(#[trigger] g[i]) by {
            assert(g[i] is Some);
            assert(!computed(g[i]));
        }
    }
}

/// Appending one slot extends the compacted segment by its value, if present.
pub proof fn lemma_compact_push(g: Seq<Option<Component>>, c: Option<Component>)
    ensures
        compact(g.push(c)) == compact(g) + (match c {
            Some(x) => seq![x],
            None => Seq::<Component>::empty(),
        }),
    decreases g.len(),
{
    if g.len() == 0 {
        assert(g.push(c)[0] == c);
        assert(g.push(c).drop_first() =~= Seq::<Option<Component>>::empty());
        assert(compact(Seq::<Option<Component>>::empty()) =~= Seq::<Component>::empty());
        match c {
            Some(x) => {
                assert(compact(g.push(c)) == seq![x] + compact(g.push(c).drop_first()));
                assert(seq![x] + compact(g.push(c).drop_first()) =~= compact(g) + seq![x]);
            },
            None => {
                assert(compact(g.push(c)) == compact(g.push(c).drop_first()));
                assert(compact(g.push(c).drop_first()) =~= compact(g) + Seq::<Component>::empty());
            },
        }
    } else {
        lemma_compact_push(g.drop_first(), c);
        assert(g.push(c).drop_first() =~= g.drop_first().push(c));
        match g[0] {
            Some(x) => {
                assert(compact(g.push(c)) == seq![x] + compact(g.drop_first().push(c)));
                assert(seq![x] + (compact(g.drop_first()) + (match c {
                    Some(y) => seq![y],
                    None => Seq::<Component>::empty(),
                })) =~= (seq![x] + compact(g.drop_first())) + (match c {
                    Some(y) => seq![y],
                    None => Seq::<Component>::empty(),
                }));
            },
            None => {},
        }
    }
}

/// Appending one segment extends the squashed output by that segment's
/// surviving content.
pub proof fn lemma_squash_groups_push(gs: Seq<Seq<Option<Component>>>, g: Seq<Option<Component>>)
    ensures
        squash_groups(gs.push(g)) == squash_groups(gs) + (if spec_keep(g) {
            compact(g)
        } else {
            Seq::<Component>::empty()
        }),
    decreases gs.len(),
{
    if gs.len() == 0 {
        assert(gs.push(g)[0] == g);
        assert(gs.push(g).drop_first() =~= Seq::<Seq<Option<Component>>>::empty());
        assert(squash_groups(Seq::<Seq<Option<Component>>>::empty())
            =~= Seq::<Component>::empty());
        if spec_keep(g) {
            assert(squash_groups(gs.push(g)) == compact(g) + squash_groups(
                gs.push(g).drop_first(),
            ));
            assert(compact(g) + squash_groups(gs.push(g).drop_first()) =~= squash_groups(gs)
                + compact(g));
        } else {
            assert(squash_groups(gs.push(g)) == squash_groups(gs.push(g).drop_first()));
            assert(squash_groups(gs.push(g).drop_first()) =~= squash_groups(gs)
                + Seq::<Component>::empty());
        }
    } else {
        lemma_squash_groups_push(gs.drop_first(), g);
        assert(gs.push(g).drop_first() =~= gs.drop_first().push(g));
        assert(gs.push(g)[0] == gs[0]);
        if spec_keep(gs[0]) {
            assert(compact(gs[0]) + (squash_groups(gs.drop_first()) + (if spec_keep(g) {
                compact(g)
            } else {
                Seq::<Component>::empty()
            })) =~= (compact(gs[0]) + squash_groups(gs.drop_first())) + (if spec_keep(g) {
                compact(g)
            } else {
                Seq::<Component>::empty()
            }));
        }
    }
}

/// Squashing a fully present fragment sequence keeps every segment, so the
/// result is the input's values in order, whatever groups it falls into.
pub proof fn lemma_squash_present(
    s: Seq<Option<Component>>,
    done: Seq<Seq<Option<Component>>>,
    cur: Seq<Option<Component>>,
)
    requires
        all_present(s),
        all_present(cur),
    ensures
        squash_groups(grouping(s, done, cur)) == squash_groups(done) + compact(cur) + compact(s),
    decreases s.len(),
{
    if s.len() == 0 {
        if cur.len() > 0 {
            lemma_present_kept(cur);
            lemma_squash_groups_push(done, cur);
        }
        assert(squash_groups(done) + compact(cur) + compact(s) =~= squash_groups(done) + compact(
            cur,
        ));
    } else {
        let c = s[0];
        let rest = s.drop_first();
        let cv = c->0;
        assert(c is Some);
        assert(compact(s) == seq![cv] + compact(rest));
        assert(all_present(rest));
        if c matches Some(Component::Color(_)) {
            if cur.len() == 0 {
                assert(all_present(cur.push(c)));
                lemma_squash_present(rest, done, cur.push(c));
                lemma_compact_push(cur, c);
                assert(squash_groups(done) + (compact(cur) + seq![cv]) + compact(rest)
                    =~= squash_groups(done) + compact(cur) + (seq![cv] + compact(rest)));
            } else {
                lemma_present_kept(cur);
                lemma_squash_present(rest, done.push(cur), seq![c]);
                lemma_squash_groups_push(done, cur);
                assert(seq![c][0] == c);
                assert(seq![c].drop_first() =~= Seq::<Option<Component>>::empty());
                assert(compact(seq![c]) == seq![cv] + compact(seq![c].drop_first()));
                assert(compact(seq![c]) =~= seq![cv]);
                assert((squash_groups(done) + compact(cur)) + seq![cv] + compact(rest)
                    =~= squash_groups(done) + compact(cur) + (seq![cv] + compact(rest)));
            }
        } else if c matches Some(Component::ColorReset(_)) {
            assert(all_present(cur.push(c)));
            lemma_present_kept(cur.push(c));
            lemma_squash_present(rest, done.push(cur.push(c)), Seq::empty());
            lemma_squash_groups_push(done, cur.push(c));
            lemma_compact_push(cur, c);
            assert(compact(Seq::<Option<Component>>::empty()) =~= Seq::<Component>::empty());
            assert((squash_groups(done) + (compact(cur) + seq![cv])) + Seq::<Component>::empty()
                + compact(rest) =~= squash_groups(done) + compact(cur) + (seq![cv] + compact(
                rest,
            )));
        } else {
            assert(all_present(cur.push(c)));
            lemma_squash_present(rest, done, cur.push(c));
            lemma_compact_push(cur, c);
            assert(squash_groups(done) + (compact(cur) + seq![cv]) + compact(rest) =~= squash_groups(
                done,
            ) + compact(cur) + (seq![cv] + compact(rest)));
        }
    }
}

/// Compacting fully wrapped fragments gives them back unchanged.
pub proof fn lemma_compact_all_some(t: Seq<Component>)
    ensures
        compact(all_some(t)) == t,
    decreases t.len(),
{
    if t.len() == 0 {
        assert(compact(all_some(t)) =~= t);
    } else {
        lemma_compact_all_some(t.drop_first());
        assert(all_some(t).drop_first() =~= all_some(t.drop_first()));
        assert(all_some(t)[0] == Some(t[0]));
        assert(seq![t[0]] + t.drop_first() =~= t);
    }
}

/// Squash is idempotent: running the grouping and squash pass over its own
/// output, with every fragment wrapped as a present slot, is a no-op.
pub proof fn lemma_squash_idempotent(s: Seq<Option<Component>>)
    ensures
        spec_squash(all_some(spec_squash(s))) == spec_squash(s),
{
    let t = spec_squash(s);
    assert(all_present(all_some(t)));
    lemma_squash_present(all_some(t), Seq::empty(), Seq::empty());
    lemma_compact_all_some(t);
    assert(squash_groups(Seq::<Seq<Option<Component>>>::empty()) + compact(
        Seq::<Option<Component>>::empty(),
    ) + t =~= t);
}

/// The views of a sequence of groups held in vectors.
pub open spec fn groups_view(gs: Seq<Vec<Option<Component>>>) -> Seq<Seq<Option<Component>>> {
    Seq::new(gs.len(), |i: int| if 0 <= i < gs.len() { gs[i]@ } else { Seq::empty() })
}

/// Partitions the fragment sequence into segments at color boundaries.
pub fn into_groups(components: Vec<Option<Component>>) -> (r: Vec<Vec<Option<Component>>>)
    ensures
        groups_view(r@) == spec_groups(components@),
{
    let ghost orig = components@;
    let mut components = components;
    let mut done: Vec<Vec<Option<Component>>> = Vec::new();
    let mut cur: Vec<Option<Component>> = Vec::new();
    proof {
        assert(groups_view(done@) =~= Seq::<Seq<Option<Component>>>::empty());
        assert(cur@ =~= Seq::<Option<Component>>::empty());
    }
    while components.len() > 0
        invariant
            spec_groups(orig) == grouping(components@, groups_view(done@), cur@),
        decreases components.len(),
    {
        let ghost pre = components@;
        let ghost done_pre = groups_view(done@);
        let ghost cur_pre = cur@;
        let c = components.remove(0);
        proof {
            assert(components@ =~= pre.drop_first());
        }
        let is_color = matches!(c, Some(Component::Color(_)));
        let is_reset = matches!(c, Some(Component::ColorReset(_)));
        if is_color {
            if cur.len() == 0 {
                cur.push(c);
                proof {
                    assert(grouping(pre, done_pre, cur_pre) == grouping(
                        components@,
                        groups_view(done@),
                        cur@,
                    ));
                }
            } else {
                done.push(cur);
                cur = Vec::new();
                cur.push(c);
                proof {
                    assert(groups_view(done@) =~= done_pre.push(cur_pre));
                    assert(cur@ =~= seq![pre[0]]);
                }
            }
        } else if is_reset {
            cur.push(c);
            done.push(cur);
            cur = Vec::new();
            proof {
                assert(groups_view(done@) =~= done_pre.push(cur_pre.push(pre[0])));
                assert(cur@ =~= Seq::<Option<Component>>::empty());
            }
        } else {
            cur.push(c);
            proof {
                assert(cur@ =~= cur_pre.push(pre[0]));
            }
        }
    }
    if cur.len() > 0 {
        let ghost done_pre = groups_view(done@);
        done.push(cur);
        proof {
            assert(groups_view(done@) =~= done_pre.push(cur@));
        }
        return done;
    }
    done
}

/// Whether a segment survives squashing: purely decorative and fully present,
/// or holding at least one computed value.
pub fn should_keep_group(group: &Vec<Option<Component>>) -> (r: bool)
    ensures
        r == spec_keep(group@),
{
    let mut all_dec = true;
    let mut any_val = false;
    let n = group.len();
    for i in 0..n
        invariant
            n == group@.len(),
            all_dec == (forall|j: int| 0 <= j < i ==> decorative(#[trigger] group@[j])),
            any_val == (exists|j: int| 0 <= j < i && computed(#[trigger] group@[j])),
    {
        let dec = matches!(
            &group[i],
            Some(Component::Static(_)) | Some(Component::Color(_)) | Some(Component::ColorReset(_))
        );
        let val = matches!(&group[i], Some(Component::Computed(_)));
        all_dec = all_dec && dec;
        any_val = any_val || val;
    }
    all_dec || any_val
}

/// Squashes a fragment sequence: segments whose absent members are not offset
/// by any computed value vanish whole, and remaining absent slots are dropped.
pub fn squash(components: Vec<Option<Component>>) -> (r: Vec<Component>)
    ensures
        r@ == spec_squash(components@),
{
    let ghost orig = components@;
    let mut groups = into_groups(components);
    let mut out: Vec<Component> = Vec::new();
    proof {
        assert(out@ + squash_groups(groups_view(groups@)) =~= spec_squash(orig));
    }
    while groups.len() > 0
        invariant
            out@ + squash_groups(groups_view(groups@)) == spec_squash(orig),
        decreases groups.len(),
    {
        let ghost gs_pre = groups_view(groups@);
        let mut g = groups.remove(0);
        proof {
            assert(groups_view(groups@) =~= gs_pre.drop_first());
            assert(gs_pre[0] == g@);
        }
        if should_keep_group(&g) {
            while g.len() > 0
                invariant
                    out@ + compact(g@) + squash_groups(groups_view(groups@)) == spec_squash(orig),
                decreases g.len(),
            {
                let ghost g_pre = g@;
                let c = g.remove(0);
                proof {
                    assert(g@ =~= g_pre.drop_first());
                }
                match c {
                    Some(x) => {
                        out.push(x);
                    },
                    None => {},
                }
            }
            proof {
                assert(compact(g@) =~= Seq::<Component>::empty());
                assert(out@ + compact(g@) =~= out@);
            }
        }
    }
    proof {
        assert(squash_groups(groups_view(groups@)) =~= Seq::<Component>::empty());
        assert(out@ + squash_groups(groups_view(groups@)) =~= out@);
    }
    out
}

// ---------------------------------------------------------------------------
// Evaluation
// ---------------------------------------------------------------------------
/// The live context one render reads: plain values gathered once by the
/// caller, so that every handler is a pure function of them.
pub struct Context {
    /// The working directory.
    pub current_dir: String,
    /// The user's home directory, or empty when unknown.
    pub home_dir: String,
    /// The discovered repository's `.git` directory, when there is one.
    pub git_root: Option<String>,
    /// The checked-out branch's short name, when one is available.
    pub git_branch: Option<String>,
    /// The checked-out commit's short id, when one is available.
    pub git_commit: Option<String>,
    /// How many stash entries the repository holds; absent when there is no
    /// repository or the stash could not be read.
    pub git_stash_count: Option<u64>,
    /// The working-tree status summary, absent when there is nothing to
    /// show, or the error text when the status query failed.
    pub git_status: Result<Option<String>, String>,
    /// The machine's hostname, when it could be read.
    pub hostname: Option<String>,
    /// The current user's name, when it could be read.
    pub user: Option<String>,
    /// The names of the environment variables that are present.
    pub env_vars: Vec<String>,
}

impl Default for Context {
    /// A context with nothing discovered: empty directories, no repository,
    /// nothing to show.
    fn default() -> (r: Context)
        ensures
            r.current_dir@.len() == 0,
            r.home_dir@.len() == 0,
            r.git_root is None,
            r.git_branch is None,
            r.git_commit is None,
            r.git_stash_count is None,
            r.git_status == Ok::<Option<String>, String>(None::<String>),
            r.hostname is None,
            r.user is None,
            r.env_vars@.len() == 0,
    {
        Context {
            current_dir: String::new(),
            home_dir: String::new(),
            git_root: None,
            git_branch: None,
            git_commit: None,
            git_stash_count: None,
            git_status: Ok(None),
            hostname: None,
            user: None,
            env_vars: Vec::new(),
        }
    }
}

/// Spec-level mirror of `Component`, over sequences of characters.
pub enum SpecFragment {
    Static(Seq<char>),
    Color(Seq<char>),
    ColorReset(Seq<char>),
    Computed(Seq<char>),
}

impl View for Component {
    type V = SpecFragment;

    open spec fn view(&self) -> SpecFragment {
        match self {
            Component::Static(s) => SpecFragment::Static(s@),
            Component::Color(s) => SpecFragment::Color(s@),
            Component::ColorReset(s) => SpecFragment::ColorReset(s@),
            Component::Computed(s) => SpecFragment::Computed(s@),
        }
    }
}

/// The views of a sequence of fragment slots.
pub open spec fn frags_view(s: Seq<Option<Component>>) -> Seq<Option<SpecFragment>> {
    Seq::new(
        s.len(),
        |i: int| if 0 <= i < s.len() {
            match s[i] {
                Some(c) => Some(c@),
                None => None,
            }
        } else {
            None
        },
    )
}

/// Why an evaluation failed.
pub enum SpecEvalError {
    /// A component was handed option keys it does not understand.
    InvalidOptions(Seq<(Seq<char>, Seq<char>)>),
    /// A data lookup failed in a way its handler propagates.
    Collaborator(Seq<char>),
}

/// Why an evaluation failed.
#[derive(Debug, PartialEq)]
pub enum EvalError {
    /// A component was handed option keys it does not understand; they are
    /// carried here, in template order.
    InvalidOptions(Options),
    /// A data lookup failed in a way its handler propagates.
    Collaborator(String),
}

impl View for EvalError {
    type V = SpecEvalError;

    open spec fn view(&self) -> SpecEvalError {
        match self {
            EvalError::InvalidOptions(o) => SpecEvalError::InvalidOptions(o@),
            EvalError::Collaborator(m) => SpecEvalError::Collaborator(m@),
        }
    }
}

impl EvalError {
    /// The error as one line of text.
    pub fn message(&self) -> (r: String)
        ensures
            self matches EvalError::InvalidOptions(o) ==> r@ == "error: invalid options: "@
                + joined_pairs(o@),
            self matches EvalError::Collaborator(m) ==> r@ == m@,
    {
        match self {
            EvalError::InvalidOptions(o) => {
                let mut m = "error: invalid options: ".to_owned();
                m.append(o.joined().as_str());
                m
            },
            EvalError::Collaborator(m) => m.clone(),
        }
    }
}

/// Whether the variable `name` is among the present environment variables.
pub open spec fn env_present(env: Seq<String>, name: Seq<char>) -> bool {
    exists|i: int| 0 <= i < env.len() && (#[trigger] env[i])@ == name
}

/// Whether a condition holds of the context and exit status.
pub open spec fn cond_holds(c: SpecCondition, ctx: Context, status: int) -> bool {
    match c {
        SpecCondition::LastCommandStatus => status == 0,
        SpecCondition::EnvironmentVariable(n) => env_present(ctx.env_vars@, n),
    }
}

/// An optional computed string as an optional fragment.
pub open spec fn computed_view(v: Option<String>) -> Option<SpecFragment> {
    match v {
        Some(s) => Some(SpecFragment::Computed(s@)),
        None => None,
    }
}

/// What the stash component shows of a stash count.
pub open spec fn stash_view(c: Option<u64>) -> Option<SpecFragment> {
    match c {
        None => None,
        Some(n) => if n == 0 {
            None
        } else {
            Some(SpecFragment::Computed(dec_digits(n as nat) + seq!['+']))
        },
    }
}

/// The view of an optional job-count string.
pub open spec fn jobs_view(jobs: Option<&str>) -> Option<Seq<char>> {
    match jobs {
        Some(j) => Some(j@),
        None => None,
    }
}

/// What dispatching one component reference yields: the handler's optional
/// fragment, an option error when the handler left options unconsumed, or a
/// collaborator error. Only `cwd` understands an option (`style`); a bad
/// `style` value is left unconsumed and so reported with the leftovers.
pub open spec fn spec_eval_component(
    name: crate::token::Component,
    options: Seq<(Seq<char>, Seq<char>)>,
    ctx: Context,
    jobs: Option<Seq<char>>,
) -> Result<Option<SpecFragment>, SpecEvalError> {
    match name {
        crate::token::Component::Cwd => {
            let ix = key_index(options, "style"@);
            let style_and_leftover = if ix == -1 {
                Some((CwdStyle::Default, options))
            } else {
                match cwd::style_of(options[ix].1) {
                    Some(st) => Some((st, options.remove(ix))),
                    None => None,
                }
            };
            match style_and_leftover {
                None => Err(SpecEvalError::InvalidOptions(options)),
                Some((st, leftover)) => if leftover.len() > 0 {
                    Err(SpecEvalError::InvalidOptions(leftover))
                } else {
                    Ok(
                        Some(
                            SpecFragment::Computed(
                                cwd::cwd_text(
                                    st,
                                    ctx.current_dir@,
                                    ctx.home_dir@,
                                    match ctx.git_root {
                                        Some(g) => Some(g@),
                                        None => None,
                                    },
                                ),
                            ),
                        ),
                    )
                },
            }
        },
        crate::token::Component::GitBranch => if options.len() > 0 {
            Err(SpecEvalError::InvalidOptions(options))
        } else {
            Ok(computed_view(ctx.git_branch))
        },
        crate::token::Component::GitCommit => if options.len() > 0 {
            Err(SpecEvalError::InvalidOptions(options))
        } else {
            Ok(computed_view(ctx.git_commit))
        },
        crate::token::Component::GitStash => if options.len() > 0 {
            Err(SpecEvalError::InvalidOptions(options))
        } else {
            Ok(stash_view(ctx.git_stash_count))
        },
        crate::token::Component::GitStatus => match ctx.git_status {
            Result::Err(m) => Err(SpecEvalError::Collaborator(m@)),
            Result::Ok(v) => if options.len() > 0 {
                Err(SpecEvalError::InvalidOptions(options))
            } else {
                Ok(computed_view(v))
            },
        },
        crate::token::Component::Hostname => if options.len() > 0 {
            Err(SpecEvalError::InvalidOptions(options))
        } else {
            Ok(computed_view(ctx.hostname))
        },
        crate::token::Component::Jobs => if options.len() > 0 {
            Err(SpecEvalError::InvalidOptions(options))
        } else {
            Ok(
                match jobs {
                    Some(j) => Some(SpecFragment::Computed(j)),
                    None => None,
                },
            )
        },
        crate::token::Component::User => if options.len() > 0 {
            Err(SpecEvalError::InvalidOptions(options))
        } else {
            Ok(computed_view(ctx.user))
        },
    }
}

/// What evaluating one token yields: its fragments in order, or the first
/// error.
pub open spec fn spec_eval_token(
    t: SpecToken,
    ctx: Context,
    shell: Shell,
    jobs: Option<Seq<char>>,
    status: int,
) -> Result<Seq<Option<SpecFragment>>, SpecEvalError>
    decreases t,
{
    match t {
        SpecToken::Static(s) => Ok(seq![Some(SpecFragment::Static(s))]),
        SpecToken::Color(c) => Ok(seq![Some(SpecFragment::Color(color::color_code(c, shell)))]),
        SpecToken::Reset => Ok(seq![Some(SpecFragment::ColorReset(reset::reset_code(shell)))]),
        SpecToken::Component { name, options } => match spec_eval_component(
            name,
            options,
            ctx,
            jobs,
        ) {
            Ok(f) => Ok(seq![f]),
            Err(e) => Err(e),
        },
        SpecToken::Conditional { condition, left, right } => if cond_holds(condition, ctx, status) {
            spec_eval_tokens(left, ctx, shell, jobs, status)
        } else {
            match right {
                Some(r) => spec_eval_tokens(r, ctx, shell, jobs, status),
                None => Ok(Seq::empty()),
            }
        },
    }
}

/// What evaluating a token sequence yields: the tokens' fragments spliced in
/// order, or the first error.
pub open spec fn spec_eval_tokens(
    ts: Seq<SpecToken>,
    ctx: Context,
    shell: Shell,
    jobs: Option<Seq<char>>,
    status: int,
) -> Result<Seq<Option<SpecFragment>>, SpecEvalError>
    decreases ts,
{
    if ts.len() == 0 {
        Ok(Seq::empty())
    } else {
        match spec_eval_token(ts[0], ctx, shell, jobs, status) {
            Err(e) => Err(e),
            Ok(f) => match spec_eval_tokens(ts.drop_first(), ctx, shell, jobs, status) {
                Err(e) => Err(e),
                Ok(rest) => Ok(f + rest),
            },
        }
    }
}

/// Whether the variable `name` is among the present environment variables.
fn env_contains(env: &Vec<String>, name: &str) -> (r: bool)
    ensures
        r == env_present(env@, name@),
{
    let n = env.len();
    for i in 0..n
        invariant
            n == env@.len(),
            forall|j: int| 0 <= j < i ==> (#[trigger] env@[j])@ != name@,
    {
        if str_eq(env[i].as_str(), name) {
            return true;
        }
    }
    false
}

/// An optional computed string as an optional fragment.
fn computed_of(v: &Option<String>) -> (r: Option<Component>)
    ensures
        frag_opt_view(r) == computed_view(*v),
{
    match v {
        Some(s) => Some(Component::Computed(s.clone())),
        None => None,
    }
}

/// The view of an optional fragment slot.
pub open spec fn frag_opt_view(c: Option<Component>) -> Option<SpecFragment> {
    match c {
        Some(f) => Some(f@),
        None => None,
    }
}

/// Evaluates one token to its fragments.
fn eval_token(
    t: &Token,
    context: &Context,
    shell: &Shell,
    jobs: Option<&str>,
    status: usize,
) -> (r: Result<Vec<Option<Component>>, EvalError>)
    ensures
        r matches Ok(v) ==> spec_eval_token((*t)@, *context, *shell, jobs_view(jobs), status as int)
            == Ok::<Seq<Option<SpecFragment>>, SpecEvalError>(frags_view(v@)),
        r matches Err(e) ==> spec_eval_token(
            (*t)@,
            *context,
            *shell,
            jobs_view(jobs),
            status as int,
        ) == Err::<Seq<Option<SpecFragment>>, SpecEvalError>(e@),
    decreases *t,
{
    match t {
        Token::Static(s) => {
            let v = vec![Some(Component::Static(s.clone()))];
            proof {
                assert(frags_view(v@) =~= seq![Some(SpecFragment::Static(s@))]);
            }
            Ok(v)
        },
        Token::Color(c) => {
            let v = vec![color::display(c, shell)];
            proof {
                assert(frags_view(v@) =~= seq![
                    Some(SpecFragment::Color(color::color_code(*c, *shell))),
                ]);
            }
            Ok(v)
        },
        Token::Reset => {
            let v = vec![reset::display(shell)];
            proof {
                assert(frags_view(v@) =~= seq![
                    Some(SpecFragment::ColorReset(reset::reset_code(*shell))),
                ]);
            }
            Ok(v)
        },
        Token::Component { name, options } => {
            let mut opts = options.clone_opts();
            let result: Option<Component> = match name {
                crate::token::Component::Cwd => {
                    let style_value: Option<String> = match opts.get("style") {
                        Some(v) => Some(v.clone()),
                        None => None,
                    };
                    let style: CwdStyle = match style_value {
                        None => CwdStyle::Default,
                        Some(v) => match cwd::style_from(v.as_str()) {
                            Some(st) => {
                                opts.remove("style");
                                st
                            },
                            None => {
                                return Err(EvalError::InvalidOptions(opts));
                            },
                        },
                    };
                    let git_root: Option<&str> = match &context.git_root {
                        Some(g) => Some(g.as_str()),
                        None => None,
                    };
                    Some(
                        cwd::display(
                            &style,
                            context.current_dir.as_str(),
                            context.home_dir.as_str(),
                            git_root,
                        ),
                    )
                },
                crate::token::Component::GitBranch => computed_of(&context.git_branch),
                crate::token::Component::GitCommit => computed_of(&context.git_commit),
                crate::token::Component::GitStash => git_stash::display(context.git_stash_count),
                crate::token::Component::GitStatus => match &context.git_status {
                    Result::Err(m) => {
                        return Err(EvalError::Collaborator(m.clone()));
                    },
                    Result::Ok(v) => computed_of(v),
                },
                crate::token::Component::Hostname => computed_of(&context.hostname),
                crate::token::Component::Jobs => jobs::display(
                    match jobs {
                        Some(j) => Some(j.to_owned()),
                        None => None,
                    },
                ),
                crate::token::Component::User => computed_of(&context.user),
            };
            if !opts.is_empty() {
                return Err(EvalError::InvalidOptions(opts));
            }
            let v = vec![result];
            proof {
                assert(frags_view(v@) =~= seq![frag_opt_view(result)]);
            }
            Ok(v)
        },
        Token::Conditional { condition, left, right } => {
            let holds = match condition {
                Condition::LastCommandStatus => status == 0,
                Condition::EnvironmentVariable(name) => env_contains(
                    &context.env_vars,
                    name.as_str(),
                ),
            };
            if holds {
                components_from_tokens(left, context, shell, jobs, status)
            } else {
                match right {
                    Some(rt) => components_from_tokens(rt, context, shell, jobs, status),
                    None => {
                        let v: Vec<Option<Component>> = Vec::new();
                        proof {
                            assert(frags_view(v@) =~= Seq::<Option<SpecFragment>>::empty());
                        }
                        Ok(v)
                    },
                }
            }
        },
    }
}

/// Evaluates a token sequence against the context: each component dispatched
/// to its handler, conditionals resolved and spliced in place, every
/// fragment kept in template order. Fails on the first unconsumed option or
/// propagated collaborator error.
pub fn components_from_tokens(
    tokens: &Vec<Token>,
    context: &Context,
    shell: &Shell,
    jobs: Option<&str>,
    status: usize,
) -> (r: Result<Vec<Option<Component>>, EvalError>)
    ensures
        r matches Ok(v) ==> spec_eval_tokens(
            tokens_view(tokens@),
            *context,
            *shell,
            jobs_view(jobs),
            status as int,
        ) == Ok::<Seq<Option<SpecFragment>>, SpecEvalError>(frags_view(v@)),
        r matches Err(e) ==> spec_eval_tokens(
            tokens_view(tokens@),
            *context,
            *shell,
            jobs_view(jobs),
            status as int,
        ) == Err::<Seq<Option<SpecFragment>>, SpecEvalError>(e@),
    decreases tokens@,
{
    let ghost tv = tokens_view(tokens@);
    let mut out: Vec<Option<Component>> = Vec::new();
    let n = tokens.len();
    proof {
        assert(tv.skip(0) =~= tv);
        assert(frags_view(out@) =~= Seq::<Option<SpecFragment>>::empty());
    }
    for i in 0..n
        invariant
            n == tokens@.len(),
            tv == tokens_view(tokens@),
            (match spec_eval_tokens(tv.skip(i as int), *context, *shell, jobs_view(jobs), status as int) {
                Err(e) => spec_eval_tokens(tv, *context, *shell, jobs_view(jobs), status as int)
                    == Err::<Seq<Option<SpecFragment>>, SpecEvalError>(e),
                Ok(rest) => spec_eval_tokens(tv, *context, *shell, jobs_view(jobs), status as int)
                    == Ok::<Seq<Option<SpecFragment>>, SpecEvalError>(frags_view(out@) + rest),
            }),
    {
        proof {
            assert(tv.skip(i as int)[0] == tv[i as int]);
            assert(tv[i as int] == tokens@[i as int]@);
            assert(tv.skip(i as int).drop_first() =~= tv.skip(i as int + 1));
        }
        match eval_token(&tokens[i], context, shell, jobs, status) {
            Err(e) => {
                return Err(e);
            },
            Ok(mut frags) => {
                let ghost out_pre = out@;
                let ghost frags_pre = frags@;
                out.append(&mut frags);
                proof {
                    assert(out@ == out_pre + frags_pre);
                    assert(frags_view(out_pre + frags_pre) =~= frags_view(out_pre) + frags_view(
                        frags_pre,
                    ));
                    match spec_eval_tokens(
                        tv.skip(i as int + 1),
                        *context,
                        *shell,
                        jobs_view(jobs),
                        status as int,
                    ) {
                        Err(e) => {},
                        Ok(rest) => {
                            assert((frags_view(out_pre) + frags_view(frags_pre)) + rest
                                =~= frags_view(out_pre) + (frags_view(frags_pre) + rest));
                        },
                    }
                }
            },
        }
    }
    proof {
        assert(tv.skip(n as int) =~= Seq::<SpecToken>::empty());
        assert(frags_view(out@) + Seq::<Option<SpecFragment>>::empty() =~= frags_view(out@));
    }
    Ok(out)
}

/// What one fragment prints.
pub open spec fn fragment_text(c: Component) -> Seq<char> {
    match c {
        Component::Static(s) => s@,
        Component::Color(s) => s@,
        Component::ColorReset(s) => s@,
        Component::Computed(s) => s@,
    }
}

/// What a fragment sequence prints: every fragment's text, in order.
pub open spec fn spec_render(s: Seq<Component>) -> Seq<char>
    decreases s.len(),
{
    if s.len() == 0 {
        Seq::empty()
    } else {
        spec_render(s.drop_last()) + fragment_text(s.last())
    }
}

impl Component {
    /// The text this fragment prints.
    pub fn text(&self) -> (r: &String)
        ensures
            r@ == fragment_text(*self),
    {
        match self {
            Component::Static(s) => s,
            Component::Color(s) => s,
            Component::ColorReset(s) => s,
            Component::Computed(s) => s,
        }
    }
}

/// Concatenates the surviving fragments into the final prompt string.
pub fn render(components: &Vec<Component>) -> (r: String)
    ensures
        r@ == spec_render(components@),
{
    let mut out = String::new();
    let n = components.len();
    for i in 0..n
        invariant
            n == components@.len(),
            out@ == spec_render(components@.take(i as int)),
    {
        out.append(components[i].text().as_str());
        proof {
            assert(components@.take(i as int + 1).drop_last() =~= components@.take(i as int));
            assert(components@.take(i as int + 1).last() == components@[i as int]);
        }
    }
    proof {
        assert(components@.take(n as int) =~= components@);
    }
    out
}

} // verus!
