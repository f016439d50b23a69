//! The configuration of a project.

use vstd::prelude::*;
use crate::data::{parse_toml, quote_text, Data};
use crate::data::{field, is_bare_key, is_quotable, quoted, setting_text, text_of, toml_tree, Tree};
use crate::text::{same, trim_text};
use crate::text::trim;

verus! {

/// What a kind of change does to the outcome of a comparison.
#[derive(Clone, Copy, Debug, PartialEq, Eq, Structural)]
pub enum PolicyAction {
    /// It is reported.
    Warn,
    /// It is reported, and the comparison fails.
    Fail,
    /// It is reported in passing.
    Ignore,
}

/// The action with the name.
pub open spec fn action_named(s: Seq<char>) -> Option<PolicyAction> {
    if s == "warn"@ {
        Some(PolicyAction::Warn)
    } else if s == "fail"@ {
        Some(PolicyAction::Fail)
    } else if s == "ignore"@ {
        Some(PolicyAction::Ignore)
    } else {
        None
    }
}

impl PolicyAction {
    /// The action with the name.
    pub fn parse(s: &str) -> (r: Option<PolicyAction>)
        ensures
            r == action_named(s@),
    {
        if same(s, "warn") {
            Some(PolicyAction::Warn)
        } else if same(s, "fail") {
            Some(PolicyAction::Fail)
        } else if same(s, "ignore") {
            Some(PolicyAction::Ignore)
        } else {
            None
        }
    }
}

/// What changes do to the outcome of a comparison that do not come from the
/// source.
#[derive(Clone, Copy, Debug, PartialEq, Eq, Structural)]
pub struct DiffPolicy {
    pub resolver_changes: PolicyAction,
    pub confidence_changes: PolicyAction,
}

impl Default for DiffPolicy {
    fn default() -> (r: DiffPolicy)
        ensures
            r.resolver_changes == PolicyAction::Warn,
            r.confidence_changes == PolicyAction::Ignore,
    {
        DiffPolicy { resolver_changes: PolicyAction::Warn, confidence_changes: PolicyAction::Ignore }
    }
}

/// The configuration: where the bundle is written, relative to the project's
/// root, and the policy for comparisons.
#[derive(Debug)]
pub struct Config {
    pub output: String,
    pub diff: DiffPolicy,
}

impl Default for Config {
    fn default() -> (r: Config)
        ensures
            r.output@ == "knowledge"@,
            r.diff == (DiffPolicy { resolver_changes: PolicyAction::Warn, confidence_changes: PolicyAction::Ignore }),
    {
        Config { output: "knowledge".to_owned(), diff: DiffPolicy::default() }
    }
}

/// What is wrong with a configuration; the default is taken in its place.
#[derive(Debug, PartialEq, Eq)]
pub enum ConfigWarning {
    /// It could not be parsed.
    Unparsable,
    /// It does not say where the bundle is written.
    MissingOutput,
    /// It has no such action for changes of the resolver.
    UnknownResolverAction(String),
    /// It has no such action for changes of the confidence.
    UnknownConfidenceAction(String),
}

/// A warning as a value.
pub enum WarningView {
    Unparsable,
    MissingOutput,
    UnknownResolverAction(Seq<char>),
    UnknownConfidenceAction(Seq<char>),
}

impl View for ConfigWarning {
    type V = WarningView;

    open spec fn view(&self) -> WarningView {
        match self {
            ConfigWarning::Unparsable => WarningView::Unparsable,
            ConfigWarning::MissingOutput => WarningView::MissingOutput,
            ConfigWarning::UnknownResolverAction(s) => WarningView::UnknownResolverAction(s@),
            ConfigWarning::UnknownConfidenceAction(s) => WarningView::UnknownConfidenceAction(s@),
        }
    }
}

/// What each warning says.
pub open spec fn warning_views(v: Seq<ConfigWarning>) -> Seq<WarningView> {
    v.map_values(|w: ConfigWarning| w@)
}

/// The action that the table of policies has under the key, or the default;
/// also where it has none of that name.
pub open spec fn action_under(table: Option<Tree>, key: Seq<char>, default: PolicyAction) -> PolicyAction {
    match named_action(table, key) {
        Some(raw) => match action_named(raw) {
            Some(a) => a,
            None => default,
        },
        None => default,
    }
}

/// What the table of policies says under the key.
pub open spec fn named_action(table: Option<Tree>, key: Seq<char>) -> Option<Seq<char>> {
    match table {
        Some(t) => text_of(field(t, key)),
        None => None,
    }
}

/// What the table of policies says under the key, where that is no action.
pub open spec fn unknown_action(table: Option<Tree>, key: Seq<char>) -> Option<Seq<char>> {
    match named_action(table, key) {
        Some(raw) => if action_named(raw) is None {
            Some(raw)
        } else {
            None
        },
        None => None,
    }
}

/// The policy in the table.
pub open spec fn policy_in(table: Option<Tree>) -> DiffPolicy {
    DiffPolicy {
        resolver_changes: action_under(table, "resolver_changes"@, PolicyAction::Warn),
        confidence_changes: action_under(table, "confidence_changes"@, PolicyAction::Ignore),
    }
}

/// What is wrong with the table of policies.
pub open spec fn policy_warnings(table: Option<Tree>) -> Seq<WarningView> {
    (match unknown_action(table, "resolver_changes"@) {
        Some(raw) => seq![WarningView::UnknownResolverAction(raw)],
        None => Seq::empty(),
    }) + (match unknown_action(table, "confidence_changes"@) {
        Some(raw) => seq![WarningView::UnknownConfidenceAction(raw)],
        None => Seq::empty(),
    })
}

/// The text under a key of the table, if there is one.
fn text_under<'a>(table: Option<&'a Data>, key: &str) -> (r: Option<&'a str>)
    ensures
        match r {
            Some(s) => named_action(match table {
                Some(d) => Some(d@),
                None => None,
            }, key@) == Some(s@),
            None => named_action(match table {
                Some(d) => Some(d@),
                None => None,
            }, key@) is None,
        },
{
    match table {
        Some(t) => match t.get(key) {
            Some(v) => v.as_text(),
            None => None,
        },
        None => None,
    }
}

/// The policy in the table, and what is wrong with it: a bad value under one
/// key leaves the others as they are.
pub fn parse_diff_policy(table: Option<&Data>) -> (r: (DiffPolicy, Vec<ConfigWarning>))
    ensures
        ({
            let t = match table {
                Some(d) => Some(d@),
                None => None,
            };
            r.0 == policy_in(t) && warning_views(r.1@) == policy_warnings(t)
        }),
{
    let ghost t = match table {
        Some(d) => Some(d@),
        None => None,
    };
    let mut policy = DiffPolicy::default();
    let mut warnings: Vec<ConfigWarning> = Vec::new();
    if let Some(raw) = text_under(table, "resolver_changes") {
        match PolicyAction::parse(raw) {
            Some(a) => {
                policy.resolver_changes = a;
            },
            None => warnings.push(ConfigWarning::UnknownResolverAction(raw.to_owned())),
        }
    }
    let ghost first = warnings@;
    if let Some(raw) = text_under(table, "confidence_changes") {
        match PolicyAction::parse(raw) {
            Some(a) => {
                policy.confidence_changes = a;
            },
            None => warnings.push(ConfigWarning::UnknownConfidenceAction(raw.to_owned())),
        }
    }
    assert(warning_views(warnings@) =~= policy_warnings(t));
    (policy, warnings)
}

/// Where the configuration says that the bundle is written.
pub open spec fn output_in(t: Tree) -> Seq<char> {
    match text_of(field(t, "output"@)) {
        Some(s) => s,
        None => "knowledge"@,
    }
}

/// What is wrong with the configuration.
pub open spec fn warnings_in(t: Tree) -> Seq<WarningView> {
    (if text_of(field(t, "output"@)) is None {
        seq![WarningView::MissingOutput]
    } else {
        Seq::empty()
    }) + policy_warnings(field(t, "diff"@))
}

/// The configuration in a document, and what is wrong with it.
pub fn config_in(value: &Data) -> (r: (Config, Vec<ConfigWarning>))
    ensures
        r.0.output@ == output_in(value@),
        r.0.diff == policy_in(field(value@, "diff"@)),
        warning_views(r.1@) == warnings_in(value@),
{
    let mut warnings: Vec<ConfigWarning> = Vec::new();
    let named: Option<&str> = match value.get("output") {
        Some(v) => v.as_text(),
        None => None,
    };
    let output = match named {
        Some(s) => s.to_owned(),
        None => {
            warnings.push(ConfigWarning::MissingOutput);
            "knowledge".to_owned()
        },
    };
    let (diff, mut more) = parse_diff_policy(value.get("diff"));
    let ghost first = warnings@;
    let ghost second = more@;
    warnings.append(&mut more);
    assert(warning_views(warnings@) =~= warning_views(first) + warning_views(second));
    assert(warning_views(warnings@) =~= warnings_in(value@));
    (Config { output, diff }, warnings)
}

/// The configuration in the text of a file, and what is wrong with it. Without
/// a file, and for one that is no TOML, it is the default. A configuration that
/// was written with a path is read back with that path.
pub fn load(content: Option<&str>) -> (r: (Config, Vec<ConfigWarning>))
    ensures
        match content {
            None => r.0.output@ == "knowledge"@ && r.0.diff == policy_in(None) && r.1@.len() == 0,
            Some(text) => match toml_tree(text@) {
                Some(t) => r.0.output@ == output_in(t) && r.0.diff == policy_in(field(t, "diff"@)) && warning_views(r.1@) == warnings_in(t),
                None => r.0.output@ == "knowledge"@ && r.0.diff == policy_in(None) && warning_views(r.1@) == seq![WarningView::Unparsable],
            },
        },
        forall|output: Seq<char>| content matches Some(text) && text@ == #[trigger] default_text(output) ==> r.0.output@ == output && r.0.diff == policy_in(None)
            && r.1@.len() == 0,
{
    proof {
        assert forall|output: Seq<char>| content matches Some(text) && text@ == #[trigger] default_text(output) implies default_text(output)
            == setting_text(" okf-rs project configuration"@, "output"@, quoted(output)) && is_quotable(" okf-rs project configuration"@) && is_bare_key("output"@) && output_in(
            Tree::Table(seq![("output"@, Tree::Text(output))]),
        ) == output && field(Tree::Table(seq![("output"@, Tree::Text(output))]), "diff"@) is None && warnings_in(Tree::Table(seq![("output"@, Tree::Text(output))])).len() == 0 by {
            lemma_default_is_a_setting(output);
            lemma_setting_is_read(output);
        }
    }
    match content {
        None => (Config::default(), Vec::new()),
        Some(text) => match parse_toml(text) {
            Some(value) => config_in(&value),
            None => {
                let mut warnings: Vec<ConfigWarning> = Vec::new();
                warnings.push(ConfigWarning::Unparsable);
                assert(warning_views(warnings@) =~= seq![WarningView::Unparsable]);
                (Config::default(), warnings)
            },
        },
    }
}

/// The text of a configuration that says where the bundle is written.
pub open spec fn default_text(output: Seq<char>) -> Seq<char> {
    "# okf-rs project configuration\noutput = \""@ + quoted(output) + "\"\n"@
}

proof fn lemma_default_is_a_setting(output: Seq<char>)
    ensures
        default_text(output) == setting_text(" okf-rs project configuration"@, "output"@, quoted(output)),
        is_quotable(" okf-rs project configuration"@),
        is_bare_key("output"@),
{
    reveal_strlit("# okf-rs project configuration\noutput = \"");
    reveal_strlit(" okf-rs project configuration");
    reveal_strlit("output");
    reveal_strlit("\"\n");
    let head = seq!['#'] + " okf-rs project configuration"@ + seq!['\n'] + "output"@ + seq![' ', '=', ' ', '"'];
    assert("# okf-rs project configuration\noutput = \""@ =~= head);
    assert("\"\n"@ =~= seq!['"', '\n']);
    assert(default_text(output) =~= setting_text(" okf-rs project configuration"@, "output"@, quoted(output)));
}

proof fn lemma_setting_is_read(output: Seq<char>)
    ensures
        output_in(Tree::Table(seq![("output"@, Tree::Text(output))])) == output,
        field(Tree::Table(seq![("output"@, Tree::Text(output))]), "diff"@) is None,
        warnings_in(Tree::Table(seq![("output"@, Tree::Text(output))])).len() == 0,
{
    let entries = seq![("output"@, Tree::Text(output))];
    reveal_with_fuel(crate::data::entry, 2);
    assert(entries.drop_last() =~= Seq::empty());
    assert("output"@ != "diff"@) by {
        reveal_strlit("output");
        reveal_strlit("diff");
        assert("output"@.len() == 6 && "diff"@.len() == 4);
    }
}

/// The text of a configuration that says where the bundle is written.
pub fn write_default(output: &str) -> (r: String)
    ensures
        r@ == default_text(output@),
{
    let mut text = "# okf-rs project configuration\noutput = \"".to_owned();
    text.append(quote_text(output).as_str());
    text.append("\"\n");
    text
}

/// Where a bundle is.
#[derive(Debug, PartialEq, Eq)]
pub enum BundlePath {
    /// At the path that was given.
    Given(String),
    /// At this path below the project's root.
    InProject(String),
}

/// Where the bundle is: at the path that was given, if any; else where the
/// configuration puts it, below the project's root.
pub fn resolve_bundle(explicit: Option<String>, config: &Config) -> (r: BundlePath)
    ensures
        match explicit {
            Some(path) => r matches BundlePath::Given(p) && p@ == path@,
            None => r matches BundlePath::InProject(p) && p@ == config.output@,
        },
{
    match explicit {
        Some(path) => BundlePath::Given(path),
        None => BundlePath::InProject(config.output.clone()),
    }
}

/// The revision that a version control command printed: nothing where it
/// failed, or printed only white space.
pub fn head_revision(success: bool, printed: Option<&str>) -> (r: Option<String>)
    ensures
        match r {
            Some(s) => success && (printed matches Some(p) && s@ == trim(p@) && s@.len() > 0),
            None => !success || printed is None || trim(printed->0@).len() == 0,
        },
{
    if !success {
        return None;
    }
    match printed {
        Some(p) => {
            let revision = trim_text(p);
            if revision.unicode_len() == 0 {
                None
            } else {
                Some(revision.to_owned())
            }
        },
        None => None,
    }
}

/// The table says this under the key.
pub open spec fn says_under(table: Option<Tree>, key: Seq<char>, word: Seq<char>) -> bool {
    table matches Some(t) && text_of(field(t, key)) == Some(word)
}

/// The policy for each sort of change is what the table says under its own
/// key. A word that is no action is as good as none, but for a warning that
/// has the word; where the table says nothing there is no warning.
pub proof fn each_policy_is_told_under_its_own_key(table: Option<Tree>, other: Option<Tree>)
    ensures
        says_under(table, "resolver_changes"@, "fail"@) ==> policy_in(table).resolver_changes is Fail,
        says_under(table, "resolver_changes"@, "warn"@) ==> policy_in(table).resolver_changes is Warn,
        says_under(table, "resolver_changes"@, "ignore"@) ==> policy_in(table).resolver_changes is Ignore,
        says_under(table, "confidence_changes"@, "fail"@) ==> policy_in(table).confidence_changes is Fail,
        says_under(table, "confidence_changes"@, "warn"@) ==> policy_in(table).confidence_changes is Warn,
        says_under(table, "confidence_changes"@, "ignore"@) ==> policy_in(table).confidence_changes is Ignore,
        (forall|w: Seq<char>| #[trigger] says_under(table, "resolver_changes"@, w) <==> says_under(other, "resolver_changes"@, w)) ==> policy_in(table).resolver_changes
            == policy_in(other).resolver_changes,
        (forall|w: Seq<char>| #[trigger] says_under(table, "confidence_changes"@, w) <==> says_under(other, "confidence_changes"@, w)) ==> policy_in(table).confidence_changes
            == policy_in(other).confidence_changes,
        forall|w: Seq<char>| #[trigger] policy_warnings(table).contains(WarningView::UnknownResolverAction(w)) <==> says_under(table, "resolver_changes"@, w) && w != "fail"@ && w != "warn"@ && w
            != "ignore"@,
        forall|w: Seq<char>| #[trigger] policy_warnings(table).contains(WarningView::UnknownConfidenceAction(w)) <==> says_under(table, "confidence_changes"@, w) && w != "fail"@ && w != "warn"@ && w
            != "ignore"@,
        forall|w: Seq<char>| says_under(table, "resolver_changes"@, w) && #[trigger] policy_warnings(table).contains(WarningView::UnknownResolverAction(w)) ==> policy_in(table).resolver_changes
            == policy_in(None).resolver_changes,
        forall|w: Seq<char>| says_under(table, "confidence_changes"@, w) && #[trigger] policy_warnings(table).contains(WarningView::UnknownConfidenceAction(w)) ==> policy_in(
            table,
        ).confidence_changes == policy_in(None).confidence_changes,
{
    reveal_strlit("fail");
    reveal_strlit("warn");
    reveal_strlit("ignore");
    assert("fail"@[0] == 'f' && "warn"@[0] == 'w' && "ignore"@[0] == 'i');
    let (r, c) = ("resolver_changes"@, "confidence_changes"@);
    lemma_same_words(table, other, r);
    lemma_same_words(table, other, c);
    let a = match unknown_action(table, r) {
        Some(raw) => seq![WarningView::UnknownResolverAction(raw)],
        None => Seq::empty(),
    };
    let b = match unknown_action(table, c) {
        Some(raw) => seq![WarningView::UnknownConfidenceAction(raw)],
        None => Seq::empty(),
    };
    assert(policy_warnings(table) == a + b);
    assert forall|w: Seq<char>| #[trigger] policy_warnings(table).contains(WarningView::UnknownResolverAction(w)) <==> says_under(table, r, w) && w != "fail"@ && w != "warn"@ && w != "ignore"@ by {
        let v = WarningView::UnknownResolverAction(w);
        if unknown_action(table, r) == Some(w) {
            assert((a + b)[0] == v);
        }
        if (a + b).contains(v) {
            let k = choose|k: int| 0 <= k < (a + b).len() && (a + b)[k] == v;
            assert(k < a.len());
        }
    }
    assert forall|w: Seq<char>| #[trigger] policy_warnings(table).contains(WarningView::UnknownConfidenceAction(w)) <==> says_under(table, c, w) && w != "fail"@ && w != "warn"@ && w
        != "ignore"@ by {
        let v = WarningView::UnknownConfidenceAction(w);
        if unknown_action(table, c) == Some(w) {
            assert((a + b)[a.len() as int] == v);
        }
        if (a + b).contains(v) {
            let k = choose|k: int| 0 <= k < (a + b).len() && (a + b)[k] == v;
            assert(k >= a.len());
            assert(b[k - a.len()] == v);
        }
    }
}

proof fn lemma_same_words(table: Option<Tree>, other: Option<Tree>, key: Seq<char>)
    ensures
        (forall|w: Seq<char>| #[trigger] says_under(table, key, w) <==> says_under(other, key, w)) ==> named_action(table, key) == named_action(other, key),
{
    if forall|w: Seq<char>| #[trigger] says_under(table, key, w) <==> says_under(other, key, w) {
        if let Some(w) = named_action(table, key) {
            assert(says_under(table, key, w));
        }
        if let Some(w) = named_action(other, key) {
            assert(says_under(other, key, w));
            assert(says_under(table, key, w));
        }
    }
}

/// The output that a configuration names is taken as it is, and without one
/// there is a warning and the place that a missing configuration means too.
pub proof fn the_output_is_named_or_missing(t: Tree, other: Tree)
    ensures
        says_under(Some(t), "output"@, output_in(t)) <==> !warnings_in(t).contains(WarningView::MissingOutput),
        warnings_in(t).contains(WarningView::MissingOutput) && warnings_in(other).contains(WarningView::MissingOutput) ==> output_in(t) == output_in(other),
{
    lemma_missing(t);
    lemma_missing(other);
}

proof fn lemma_missing(t: Tree)
    ensures
        warnings_in(t).contains(WarningView::MissingOutput) <==> text_of(field(t, "output"@)) is None,
{
    let rest = policy_warnings(field(t, "diff"@));
    let all = warnings_in(t);
    let v = WarningView::MissingOutput;
    if text_of(field(t, "output"@)) is None {
        assert(all[0] == v);
    } else {
        assert(all =~= rest);
        if all.contains(v) {
            let k = choose|k: int| 0 <= k < rest.len() && rest[k] == v;
            assert(rest[k] is UnknownResolverAction || rest[k] is UnknownConfidenceAction);
        }
    }
}

}
