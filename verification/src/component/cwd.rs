use vstd::prelude::*;
use vstd::string::StringExecFns;
use vstd::string::StrSliceExecFns;

use crate::component::Component;
use crate::token::str_eq;

verus! {

/// How the working directory is spelled.
#[derive(Clone, Copy, Debug, PartialEq, Eq, Structural)]
pub enum CwdStyle {
    Default,
    Long,
    Short,
}

/// The style a `style=` option value names.
pub open spec fn style_of(v: Seq<char>) -> Option<CwdStyle> {
    if v == "default"@ {
        Some(CwdStyle::Default)
    } else if v == "short"@ {
        Some(CwdStyle::Short)
    } else if v == "long"@ {
        Some(CwdStyle::Long)
    } else {
        None
    }
}

/// Reads a `style=` option value.
pub fn style_from(v: &str) -> (r: Option<CwdStyle>)
    ensures
        r == style_of(v@),
{
    if str_eq(v, "default") {
        Some(CwdStyle::Default)
    } else if str_eq(v, "short") {
        Some(CwdStyle::Short)
    } else if str_eq(v, "long") {
        Some(CwdStyle::Long)
    } else {
        None
    }
}

/// Whether `path` lies strictly below the nonempty directory `prefix`.
pub open spec fn is_path_prefix(prefix: Seq<char>, path: Seq<char>) -> bool {
    prefix.len() > 0 && path.len() > prefix.len() && path.subrange(0, prefix.len() as int)
        == prefix && path[prefix.len() as int] == '/'
}

/// The home-directory prefix of a path abbreviated to `~`; a path not under
/// the home directory is kept as it is.
pub open spec fn spec_replace_home(current: Seq<char>, home: Seq<char>) -> Seq<char> {
    if current == home {
        seq!['~']
    } else if is_path_prefix(home, current) {
        seq!['~'] + current.skip(home.len() as int)
    } else {
        current
    }
}

/// The index of the last `/` in `p`, or `-1` when it has none.
pub open spec fn last_slash(p: Seq<char>) -> int
    decreases p.len(),
{
    if p.len() == 0 {
        -1
    } else if p.last() == '/' {
        p.len() - 1
    } else {
        last_slash(p.drop_last())
    }
}

/// The end of the path segment starting at `i`: the next `/` at or after it,
/// or the end of the path.
pub open spec fn seg_end(p: Seq<char>, i: int) -> int
    decreases p.len() - i,
{
    if i < p.len() && p[i] != '/' {
        seg_end(p, i + 1)
    } else {
        i
    }
}

/// The relative path from `i` on with every segment abbreviated to its first
/// character. The range test guards the recursion; segment ends never lie
/// before their start.
pub open spec fn shorten_from(p: Seq<char>, i: int) -> Seq<char>
    decreases p.len() - i,
{
    if i >= p.len() {
        Seq::empty()
    } else {
        let e = seg_end(p, i);
        let head = if e > i {
            seq![p[i]]
        } else {
            Seq::<char>::empty()
        };
        if i <= e < p.len() {
            head + seq!['/'] + shorten_from(p, e + 1)
        } else {
            head
        }
    }
}

/// The `short` spelling: the path under home, with every segment between home
/// and the repository root abbreviated to its first character. Wherever the
/// directories do not nest as expected, the full path is kept as it is.
pub open spec fn spec_short(current: Seq<char>, home: Seq<char>, git_root: Seq<char>) -> Seq<
    char,
> {
    if !(current == home || is_path_prefix(home, current)) {
        current
    } else {
        let cur_rel = if current == home {
            Seq::<char>::empty()
        } else {
            current.skip(home.len() as int + 1)
        };
        let ls1 = last_slash(git_root);
        if ls1 < 0 {
            current
        } else {
            let p1 = git_root.subrange(0, ls1);
            let ls2 = last_slash(p1);
            if ls2 < 0 {
                current
            } else {
                let base = p1.subrange(0, ls2);
                if !(base == home || is_path_prefix(home, base)) {
                    current
                } else {
                    let base_rel = if base == home {
                        Seq::<char>::empty()
                    } else {
                        base.skip(home.len() as int + 1)
                    };
                    if base_rel.len() > 0 && !(cur_rel == base_rel || is_path_prefix(
                        base_rel,
                        cur_rel,
                    )) {
                        current
                    } else {
                        let rest = if base_rel.len() == 0 {
                            cur_rel
                        } else if cur_rel == base_rel {
                            Seq::<char>::empty()
                        } else {
                            cur_rel.skip(base_rel.len() as int + 1)
                        };
                        let short_base = shorten_from(base_rel, 0);
                        let tail1 = if short_base.len() > 0 {
                            seq!['/'] + short_base
                        } else {
                            Seq::<char>::empty()
                        };
                        let tail2 = if rest.len() > 0 {
                            seq!['/'] + rest
                        } else {
                            Seq::<char>::empty()
                        };
                        spec_replace_home(home + tail1 + tail2, home)
                    }
                }
            }
        }
    }
}

/// What the cwd component shows for each style.
pub open spec fn cwd_text(
    style: CwdStyle,
    current: Seq<char>,
    home: Seq<char>,
    git_root: Option<Seq<char>>,
) -> Seq<char> {
    match style {
        CwdStyle::Default => spec_replace_home(current, home),
        CwdStyle::Long => current,
        CwdStyle::Short => match git_root {
            Some(g) => spec_short(current, home, g),
            None => spec_replace_home(current, home),
        },
    }
}

/// Whether `path` lies strictly below the nonempty directory `prefix`.
fn path_prefix(prefix: &str, path: &str) -> (r: bool)
    ensures
        r == is_path_prefix(prefix@, path@),
{
    let pl = prefix.unicode_len();
    let cl = path.unicode_len();
    if pl > 0 && cl > pl && path.get_char(pl) == '/' {
        let r = str_eq(path.substring_char(0, pl), prefix);
        r
    } else {
        false
    }
}

/// Replace the home directory portion of the path with `~`.
pub fn replace_home_dir(current_dir: &str, home_dir: &str) -> (r: String)
    ensures
        r@ == spec_replace_home(current_dir@, home_dir@),
{
    if str_eq(current_dir, home_dir) {
        let r = "~".to_owned();
        proof {
            reveal_strlit("~");
            assert(r@ =~= seq!['~']);
        }
        return r;
    }
    if path_prefix(home_dir, current_dir) {
        let hl = home_dir.unicode_len();
        let cl = current_dir.unicode_len();
        let mut r = "~".to_owned();
        r.append(current_dir.substring_char(hl, cl));
        proof {
            reveal_strlit("~");
            assert(r@ =~= seq!['~'] + current_dir@.skip(hl as int));
        }
        r
    } else {
        current_dir.to_owned()
    }
}

/// The index of the last `/` in `p`, if it has one.
fn last_slash_of(p: &str) -> (r: Option<usize>)
    ensures
        r is None ==> last_slash(p@) == -1,
        r matches Some(i) ==> i as int == last_slash(p@) && i < p@.len(),
{
    let mut k = p.unicode_len();
    proof {
        assert(p@.subrange(0, k as int) =~= p@);
    }
    while k > 0
        invariant
            k <= p@.len(),
            last_slash(p@) == last_slash(p@.subrange(0, k as int)),
        decreases k,
    {
        let ghost pre = p@.subrange(0, k as int);
        if p.get_char(k - 1) == '/' {
            proof {
                assert(pre.last() == p@[k - 1]);
                assert(last_slash(pre) == k - 1);
            }
            return Some(k - 1);
        }
        proof {
            assert(pre.last() == p@[k - 1]);
            assert(pre.drop_last() =~= p@.subrange(0, k - 1));
        }
        k = k - 1;
    }
    proof {
        assert(p@.subrange(0, 0) =~= Seq::<char>::empty());
    }
    None
}

/// The relative path `p` with every segment abbreviated to its first
/// character.
fn shorten_rel(p: &str) -> (r: String)
    ensures
        r@ == shorten_from(p@, 0),
{
    let n = p.unicode_len();
    let mut out = String::new();
    let mut k: usize = 0;
    while k < n
        invariant
            k <= n,
            n == p@.len(),
            shorten_from(p@, 0) == out@ + shorten_from(p@, k as int),
        decreases n - k,
    {
        let ghost out_pre = out@;
        let mut e = k;
        while e < n && p.get_char(e) != '/'
            invariant
                k <= e <= n,
                n == p@.len(),
                seg_end(p@, k as int) == seg_end(p@, e as int),
            decreases n - e,
        {
            e = e + 1;
        }
        if e > k {
            out.append(p.substring_char(k, k + 1));
            proof {
                assert(p@.subrange(k as int, k as int + 1) =~= seq![p@[k as int]]);
            }
        }
        if e < n {
            out.append("/");
            proof {
                reveal_strlit("/");
                assert(out@ =~= out_pre + (if seg_end(p@, k as int) > k {
                    seq![p@[k as int]]
                } else {
                    Seq::<char>::empty()
                }) + seq!['/']);
                assert(shorten_from(p@, k as int) == (if seg_end(p@, k as int) > k {
                    seq![p@[k as int]]
                } else {
                    Seq::<char>::empty()
                }) + seq!['/'] + shorten_from(p@, e + 1));
                assert(shorten_from(p@, 0) =~= out@ + shorten_from(p@, e + 1));
            }
            k = e + 1;
        } else {
            proof {
                assert(shorten_from(p@, k as int) == (if seg_end(p@, k as int) > k {
                    seq![p@[k as int]]
                } else {
                    Seq::<char>::empty()
                }));
                assert(shorten_from(p@, n as int) =~= Seq::<char>::empty());
                assert(shorten_from(p@, 0) =~= out@ + shorten_from(p@, n as int));
            }
            k = n;
        }
    }
    proof {
        assert(shorten_from(p@, n as int) =~= Seq::<char>::empty());
        assert(out@ + shorten_from(p@, k as int) =~= out@);
    }
    out
}

/// The `short` spelling of the working directory: under home, with every
/// segment between home and the repository's parent abbreviated to its first
/// character. Falls back to the full path when the directories do not nest.
pub fn short(current_dir: &str, home_dir: &str, git_root: &str) -> (r: String)
    ensures
        r@ == spec_short(current_dir@, home_dir@, git_root@),
{
    let cur_is_home = str_eq(current_dir, home_dir);
    if !(cur_is_home || path_prefix(home_dir, current_dir)) {
        return current_dir.to_owned();
    }
    let hl = home_dir.unicode_len();
    let cl = current_dir.unicode_len();
    let cur_rel: &str = if cur_is_home {
        ""
    } else {
        current_dir.substring_char(hl + 1, cl)
    };
    proof {
        reveal_strlit("");
    }
    let ls1 = match last_slash_of(git_root) {
        None => {
            return current_dir.to_owned();
        },
        Some(i) => i,
    };
    let p1 = git_root.substring_char(0, ls1);
    let ls2 = match last_slash_of(p1) {
        None => {
            return current_dir.to_owned();
        },
        Some(i) => i,
    };
    let base = p1.substring_char(0, ls2);
    proof {
        assert(base@ =~= git_root@.subrange(0, ls1 as int).subrange(0, ls2 as int));
    }
    let base_is_home = str_eq(base, home_dir);
    if !(base_is_home || path_prefix(home_dir, base)) {
        return current_dir.to_owned();
    }
    let bl = base.unicode_len();
    let base_rel: &str = if base_is_home {
        ""
    } else {
        base.substring_char(hl + 1, bl)
    };
    let brl = base_rel.unicode_len();
    if brl > 0 && !(str_eq(cur_rel, base_rel) || path_prefix(base_rel, cur_rel)) {
        return current_dir.to_owned();
    }
    let crl = cur_rel.unicode_len();
    let rest: &str = if brl == 0 {
        cur_rel
    } else if str_eq(cur_rel, base_rel) {
        ""
    } else {
        cur_rel.substring_char(brl + 1, crl)
    };
    let short_base = shorten_rel(base_rel);
    let mut full = home_dir.to_owned();
    if short_base.as_str().unicode_len() > 0 {
        full.append("/");
        full.append(short_base.as_str());
    }
    if rest.unicode_len() > 0 {
        full.append("/");
        full.append(rest);
    }
    proof {
        reveal_strlit("/");
        let tail1 = if shorten_from(base_rel@, 0).len() > 0 {
            seq!['/'] + shorten_from(base_rel@, 0)
        } else {
            Seq::<char>::empty()
        };
        let tail2 = if rest@.len() > 0 {
            seq!['/'] + rest@
        } else {
            Seq::<char>::empty()
        };
        assert(full@ =~= home_dir@ + tail1 + tail2);
    }
    replace_home_dir(full.as_str(), home_dir)
}

/// What the cwd component shows: the working directory spelled by the chosen
/// style, as computed output.
pub fn display(
    style: &CwdStyle,
    current_dir: &str,
    home_dir: &str,
    git_root: Option<&str>,
) -> (r: Component)
    ensures
        r matches Component::Computed(s) && s@ == cwd_text(
            *style,
            current_dir@,
            home_dir@,
            match git_root {
                Some(g) => Some(g@),
                None => None,
            },
        ),
{
    let output = match style {
        CwdStyle::Default => replace_home_dir(current_dir, home_dir),
        CwdStyle::Short => match git_root {
            Some(git_root) => short(current_dir, home_dir, git_root),
            None => replace_home_dir(current_dir, home_dir),
        },
        CwdStyle::Long => current_dir.to_owned(),
    };
    Component::Computed(output)
}

} // verus!
