//! Configuration values and their merge: a global and a local configuration
//! combine field by field, the local one winning, with defaults filled in
//! for the ignore mode, the patterns and the keywords.
use vstd::prelude::*;

verus! {

/// How the path patterns are applied: as a deny list or as an allow list.
#[derive(Debug, PartialEq, Eq, Structural, Clone, Copy)]
pub enum IgnoreMode {
    Blacklist,
    Whitelist,
}

/// Which issue tracker the annotations are reported to.
#[derive(Debug, PartialEq, Eq, Structural, Clone, Copy)]
pub enum Backend {
    Gitea,
    Github,
}

/// What can be wrong with a configuration: patterns that do not compile, or
/// a value that it misses.
#[derive(Debug)]
pub enum ConfigError {
    Pattern,
    MissingValue(String),
}

/// A configuration as read from a file: every value may be absent.
#[derive(Debug)]
pub struct RawConfig {
    pub ignore_mode: Option<IgnoreMode>,
    pub backend: Option<Backend>,
    pub patterns: Option<Vec<String>>,
    pub keywords: Option<Vec<String>>,
    pub user: Option<String>,
    pub repo: Option<String>,
    pub token: Option<String>,
    pub url: Option<String>,
}

/// The mathematical content of a configuration.
#[verifier::ext_equal]
pub ghost struct RawConfigView {
    pub ignore_mode: Option<IgnoreMode>,
    pub backend: Option<Backend>,
    pub patterns: Option<Seq<Seq<char>>>,
    pub keywords: Option<Seq<Seq<char>>>,
    pub user: Option<Seq<char>>,
    pub repo: Option<Seq<char>>,
    pub token: Option<Seq<char>>,
    pub url: Option<Seq<char>>,
}

/// The view of an optional text.
pub open spec fn opt_str_view(o: Option<String>) -> Option<Seq<char>> {
    match o {
        Some(s) => Some(s@),
        None => None,
    }
}

/// The view of an optional text list.
pub open spec fn opt_strs_view(o: Option<Vec<String>>) -> Option<Seq<Seq<char>>> {
    match o {
        Some(v) => Some(v.deep_view()),
        None => None,
    }
}

impl View for RawConfig {
    type V = RawConfigView;

    open spec fn view(&self) -> RawConfigView {
        RawConfigView {
            ignore_mode: self.ignore_mode,
            backend: self.backend,
            patterns: opt_strs_view(self.patterns),
            keywords: opt_strs_view(self.keywords),
            user: opt_str_view(self.user),
            repo: opt_str_view(self.repo),
            token: opt_str_view(self.token),
            url: opt_str_view(self.url),
        }
    }
}

/// The local value when both are set, else whichever is set, else nothing.
pub open spec fn pick<A>(global: Option<A>, local: Option<A>) -> Option<A> {
    match (global, local) {
        (None, None) => None,
        (Some(g), None) => Some(g),
        (None, Some(l)) => Some(l),
        (Some(_), Some(l)) => Some(l),
    }
}

/// Whether the two configurations agree on the ignore mode (an absent mode
/// agrees with anything).
pub open spec fn same_mode_of(g: RawConfigView, l: RawConfigView) -> bool {
    match (g.ignore_mode, l.ignore_mode) {
        (Some(a), Some(b)) => a == b,
        _ => true,
    }
}

/// The keyword list used when none is configured.
pub open spec fn default_keywords() -> Seq<Seq<char>> {
    seq![seq!['T', 'O', 'D', 'O']]
}

/// The merge of a global and a local configuration: the local value wins
/// field by field; the ignore mode defaults to the deny list, the keywords
/// to the one default keyword, the patterns to none; and when both sides
/// give patterns under one and the same mode, the local patterns are kept
/// and the global ones appended.
pub open spec fn merged_view(g: RawConfigView, l: RawConfigView) -> RawConfigView {
    RawConfigView {
        ignore_mode: match (g.ignore_mode, l.ignore_mode) {
            (None, None) => Some(IgnoreMode::Blacklist),
            (Some(v), None) => Some(v),
            (None, Some(v)) => Some(v),
            (Some(_), Some(v)) => Some(v),
        },
        backend: pick(g.backend, l.backend),
        patterns: match (g.patterns, l.patterns) {
            (None, None) => Some(Seq::<Seq<char>>::empty()),
            (Some(v), None) => Some(v),
            (None, Some(v)) => Some(v),
            (Some(gp), Some(lp)) => Some(
                if same_mode_of(g, l) {
                    lp + gp
                } else {
                    lp
                },
            ),
        },
        keywords: match (g.keywords, l.keywords) {
            (None, None) => Some(default_keywords()),
            (Some(v), None) => Some(v),
            (None, Some(v)) => Some(v),
            (Some(_), Some(v)) => Some(v),
        },
        user: pick(g.user, l.user),
        repo: pick(g.repo, l.repo),
        token: pick(g.token, l.token),
        url: pick(g.url, l.url),
    }
}

/// The local value when both are set, else whichever is set, else nothing.
pub fn merge<T>(global: Option<T>, local: Option<T>) -> (r: Option<T>)
    ensures
        r == pick(global, local),
{
    match (global, local) {
        (None, None) => None,
        (Some(g), None) => Some(g),
        (None, Some(l)) => Some(l),
        (Some(_), Some(l)) => Some(l),
    }
}

/// The two values combined by the given function when both are set, else
/// whichever is set, else the default.
pub fn merge_fn<T, F: Fn(T, T) -> T>(global: Option<T>, local: Option<T>, default: T, f: F) -> (r:
    Option<T>)
    requires
        global is Some && local is Some ==> f.requires((global->0, local->0)),
    ensures
        global is None && local is None ==> r == Some(default),
        global is Some && local is None ==> r == global,
        global is None && local is Some ==> r == local,
        global is Some && local is Some ==> r is Some && f.ensures(
            (global->0, local->0),
            r->0,
        ),
{
    match (global, local) {
        (None, None) => Some(default),
        (Some(g), None) => Some(g),
        (None, Some(l)) => Some(l),
        (Some(g), Some(l)) => Some(f(g, l)),
    }
}

/// The elements of `b` moved onto the end of `a`.
fn concat_strings(a: Vec<String>, b: Vec<String>) -> (r: Vec<String>)
    ensures
        r.deep_view() == a.deep_view() + b.deep_view(),
{
    let ghost av = a.deep_view();
    let ghost bv = b.deep_view();
    let mut r = a;
    let mut i: usize = 0;
    while i < b.len()
        invariant
            i <= b@.len(),
            bv == b.deep_view(),
            bv.len() == b@.len(),
            r.deep_view() =~= av + bv.take(i as int),
        decreases b.len() - i,
    {
        let ghost prev = r@;
        proof {
            assert(r.deep_view().len() == r@.len());
            assert(prev.len() == av.len() + i);
            assert(bv[i as int] == b@[i as int]@);
        }
        r.push(b[i].clone());
        proof {
            assert(r@ =~= prev.push(b@[i as int]));
            assert(r.deep_view().len() == r@.len());
            assert(bv.take(i + 1) =~= bv.take(i as int).push(bv[i as int]));
            assert forall|m: int| 0 <= m < r@.len() implies r.deep_view()[m] == (av + bv.take(
                i + 1,
            ))[m] by {
                assert(r.deep_view()[m] == r@[m]@);
                if m < prev.len() {
                    assert(r@[m] == prev[m]);
                    assert((av + bv.take(i as int))[m] == prev[m]@);
                } else {
                    assert(r@[m] == b@[i as int]);
                }
            }
            assert(r.deep_view() =~= av + bv.take(i + 1));
        }
        i = i + 1;
    }
    proof {
        assert(bv.take(bv.len() as int) =~= bv);
    }
    r
}

/// The keyword list used when none is configured.
fn make_default_keywords() -> (r: Vec<String>)
    ensures
        r.deep_view() == default_keywords(),
{
    let mut r: Vec<String> = Vec::new();
    let kw = "TODO".to_owned();
    proof {
        reveal_strlit("TODO");
        assert(kw@ =~= seq!['T', 'O', 'D', 'O']);
    }
    r.push(kw);
    proof {
        assert(r.deep_view() =~= default_keywords());
    }
    r
}

impl RawConfig {
    /// Merges a global and a local configuration, the local one winning; see
    /// `merged_view` for what each field becomes.
    pub fn merge(global: Self, local: Self) -> (r: Self)
        ensures
            r@ == merged_view(global@, local@),
    {
        let same_mode: bool = match (&global.ignore_mode, &local.ignore_mode) {
            (Some(a), Some(b)) => *a == *b,
            _ => true,
        };
        let ignore_mode = match (global.ignore_mode, local.ignore_mode) {
            (None, None) => Some(IgnoreMode::Blacklist),
            (Some(v), None) => Some(v),
            (None, Some(v)) => Some(v),
            (Some(_), Some(v)) => Some(v),
        };
        let patterns = match (global.patterns, local.patterns) {
            (None, None) => Some(Vec::<String>::new()),
            (Some(v), None) => Some(v),
            (None, Some(v)) => Some(v),
            (Some(gp), Some(lp)) => Some(
                if same_mode {
                    concat_strings(lp, gp)
                } else {
                    lp
                },
            ),
        };
        let keywords = match (global.keywords, local.keywords) {
            (None, None) => Some(make_default_keywords()),
            (Some(v), None) => Some(v),
            (None, Some(v)) => Some(v),
            (Some(_), Some(v)) => Some(v),
        };
        let r = RawConfig {
            ignore_mode,
            backend: merge(global.backend, local.backend),
            patterns,
            keywords,
            user: merge(global.user, local.user),
            repo: merge(global.repo, local.repo),
            token: merge(global.token, local.token),
            url: merge(global.url, local.url),
        };
        proof {
            assert(r@ =~= merged_view(global@, local@));
        }
        r
    }
}

impl Default for RawConfig {
    /// A configuration with every value absent.
    fn default() -> (r: RawConfig)
        ensures
            r.ignore_mode is None,
            r.backend is None,
            r.patterns is None,
            r.keywords is None,
            r.user is None,
            r.repo is None,
            r.token is None,
            r.url is None,
    {
        RawConfig {
            ignore_mode: None,
            backend: None,
            patterns: None,
            keywords: None,
            user: None,
            repo: None,
            token: None,
            url: None,
        }
    }
}

/// Optional texts are equal exactly when both are absent or both hold the
/// same text.
fn opt_string_eq(a: &Option<String>, b: &Option<String>) -> (r: bool)
    ensures
        r == (opt_str_view(*a) == opt_str_view(*b)),
{
    match (a, b) {
        (None, None) => true,
        (Some(x), Some(y)) => x.eq(y),
        _ => false,
    }
}

/// Optional text lists are equal exactly when both are absent or both hold
/// the same texts in the same order.
fn opt_strings_eq(a: &Option<Vec<String>>, b: &Option<Vec<String>>) -> (r: bool)
    ensures
        r == (opt_strs_view(*a) == opt_strs_view(*b)),
{
    match (a, b) {
        (None, None) => true,
        (Some(x), Some(y)) => crate::todo::vec_string_eq(x, y),
        _ => false,
    }
}

impl PartialEq for RawConfig {
    /// Field-by-field comparison of two configurations.
    fn eq(&self, other: &RawConfig) -> (r: bool) {
        let modes_eq = match (self.ignore_mode, other.ignore_mode) {
            (None, None) => true,
            (Some(a), Some(b)) => a == b,
            _ => false,
        };
        let backends_eq = match (self.backend, other.backend) {
            (None, None) => true,
            (Some(a), Some(b)) => a == b,
            _ => false,
        };
        let r = modes_eq && backends_eq && opt_strings_eq(&self.patterns, &other.patterns)
            && opt_strings_eq(&self.keywords, &other.keywords) && opt_string_eq(
            &self.user,
            &other.user,
        ) && opt_string_eq(&self.repo, &other.repo) && opt_string_eq(&self.token, &other.token)
            && opt_string_eq(&self.url, &other.url);
        proof {
            if r {
                assert(self@ =~= other@);
            }
        }
        r
    }
}

impl vstd::std_specs::cmp::PartialEqSpecImpl for RawConfig {
    open spec fn obeys_eq_spec() -> bool {
        true
    }

    open spec fn eq_spec(&self, other: &RawConfig) -> bool {
        self@ == other@
    }
}

} // verus!
