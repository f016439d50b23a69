//! Reports that decide whether a run passes: the classified diff, the impact
//! of a change, and what is wrong with a bundle.

use vstd::prelude::*;
use crate::config::{DiffPolicy, PolicyAction};
use crate::diff::{ChangedConcept, DiffReport};
use crate::impact::{ChangeKind, ImpactReport, ImpactedConcept};
use crate::model::{same_opt, Concept};
use crate::model::opt_text;
use crate::order::sorted_texts;
use crate::order::{gather, lemma_gather_holds, str_views};
use crate::pages::{lemma_shows_gathered, lemma_shows_itself, lemma_shows_within, shows, shows_at};
use crate::render::{push_framed, push_if};
use crate::render::{framed, kind_label, only_if, type_label};
use crate::summary::CiSummary;
use crate::text::{decimal_text, join_texts};
use crate::text::{decimal, join, lemma_lex_irreflexive, texts};

verus! {

/// The sign in front of changes under this policy.
pub open spec fn icon_of(action: PolicyAction) -> Seq<char> {
    match action {
        PolicyAction::Fail => "\u{274c}"@,
        PolicyAction::Warn => "\u{26a0}\u{fe0f} "@,
        PolicyAction::Ignore => "\u{2139}\u{fe0f} "@,
    }
}

/// The sign in front of changes under this policy, and whether they fail the
/// run.
pub fn policy_icon(action: PolicyAction) -> (r: (&'static str, bool))
    ensures
        r.0@ == icon_of(action),
        r.1 == (action is Fail),
{
    match action {
        PolicyAction::Fail => ("\u{274c}", true),
        PolicyAction::Warn => ("\u{26a0}\u{fe0f} ", false),
        PolicyAction::Ignore => ("\u{2139}\u{fe0f} ", false),
    }
}

/// Changes of the source always fail the run; the others do where their policy
/// says so.
pub open spec fn ci_fails(s: CiSummary, policy: DiffPolicy) -> bool {
    ||| s.source_changes > 0
    ||| s.resolver_changes > 0 && policy.resolver_changes is Fail
    ||| s.confidence_changes > 0 && policy.confidence_changes is Fail
}

/// How many changes there are of one sort; nothing for none.
pub open spec fn count_line(icon: Seq<char>, what: Seq<char>, count: nat) -> Seq<char> {
    if count == 0 {
        Seq::empty()
    } else {
        icon + what + decimal(count) + "\n"@
    }
}

/// Which share of the changes only the resolver made.
pub open spec fn rate_line(resolver_changes: nat, percent: Option<Seq<char>>) -> Seq<char> {
    if resolver_changes == 0 {
        Seq::empty()
    } else {
        framed("   ("@, percent, "% of relationship-level changes in this diff were resolver-only)\n"@)
    }
}

/// The classified diff.
pub open spec fn ci_report(s: CiSummary, percent: Option<Seq<char>>, policy: DiffPolicy, from: Seq<char>, to: Seq<char>) -> Seq<char> {
    if s.source_changes == 0 && s.resolver_changes == 0 && s.confidence_changes == 0 {
        "No changes between "@ + from + " and "@ + to + "\n\nexit code: 0"@
    } else {
        count_line("\u{274c}"@, " SOURCE CHANGES: "@, s.source_changes as nat) + count_line(
            icon_of(policy.resolver_changes),
            " RESOLVER CHANGES: "@,
            s.resolver_changes as nat,
        ) + rate_line(s.resolver_changes as nat, percent) + count_line(
            icon_of(policy.confidence_changes),
            " CONFIDENCE CHANGES: "@,
            s.confidence_changes as nat,
        ) + "\nexit code: "@ + (if ci_fails(s, policy) {
            "1"@
        } else {
            "0"@
        })
    }
}

fn push_count(out: &mut String, icon: &str, what: &str, count: usize)
    ensures
        final(out)@ == old(out)@ + count_line(icon@, what@, count as nat),
{
    if count > 0 {
        out.append(icon);
        out.append(what);
        out.append(decimal_text(count).as_str());
        out.append("\n");
        assert(out@ =~= old(out)@ + count_line(icon@, what@, count as nat));
    } else {
        assert(out@ =~= old(out)@ + Seq::empty());
    }
}

/// The classified diff, and whether it fails the run. `percent` is the share of
/// changes that only the resolver made, to one decimal place.
pub fn render_ci_report(summary: &CiSummary, percent: Option<&str>, policy: DiffPolicy, from_ref: &str, to_ref: &str) -> (r: (String, bool))
    ensures
        r.0@ == ci_report(
            *summary,
            match percent {
                Some(p) => Some(p@),
                None => None,
            },
            policy,
            from_ref@,
            to_ref@,
        ),
        r.1 == ci_fails(*summary, policy),
{
    if summary.is_empty() {
        let mut out = "No changes between ".to_owned();
        out.append(from_ref);
        out.append(" and ");
        out.append(to_ref);
        out.append("\n\nexit code: 0");
        return (out, false);
    }
    let mut out = String::new();
    let mut failed = summary.source_changes > 0;
    push_count(&mut out, "\u{274c}", " SOURCE CHANGES: ", summary.source_changes);
    let (icon, fails) = policy_icon(policy.resolver_changes);
    push_count(&mut out, icon, " RESOLVER CHANGES: ", summary.resolver_changes);
    let ghost at = out@;
    if summary.resolver_changes > 0 {
        failed = failed || fails;
        if let Some(p) = percent {
            out.append("   (");
            out.append(p);
            out.append("% of relationship-level changes in this diff were resolver-only)\n");
        }
    }
    assert(out@ =~= at + rate_line(
        summary.resolver_changes as nat,
        match percent {
            Some(p) => Some(p@),
            None => None,
        },
    ));
    let (icon, fails) = policy_icon(policy.confidence_changes);
    push_count(&mut out, icon, " CONFIDENCE CHANGES: ", summary.confidence_changes);
    if summary.confidence_changes > 0 {
        failed = failed || fails;
    }
    out.append("\nexit code: ");
    out.append(if failed {
        "1"
    } else {
        "0"
    });
    assert(Seq::<char>::empty() + count_line("\u{274c}"@, " SOURCE CHANGES: "@, summary.source_changes as nat) =~= count_line(
        "\u{274c}"@,
        " SOURCE CHANGES: "@,
        summary.source_changes as nat,
    ));
    (out, failed)
}

/// A summary fails the run under any policy once it counts a change of the
/// source, and never where all it counts is of a sort that is not to fail.
pub proof fn only_what_must_fail_fails(s: CiSummary, policy: DiffPolicy)
    ensures
        s.source_changes > 0 ==> ci_fails(s, policy),
        s.source_changes == 0 && !(policy.resolver_changes is Fail) && !(policy.confidence_changes is Fail) ==> !ci_fails(s, policy),
{
}

/// Changes of one sort fail a run by the policy for that sort alone, and a run
/// with more changes fails where one with fewer does.
pub proof fn each_sort_fails_by_its_own_policy(s: CiSummary, policy: DiffPolicy, more: CiSummary)
    ensures
        s.source_changes == 0 && s.confidence_changes == 0 ==> (ci_fails(s, policy) <==> s.resolver_changes != 0 && policy.resolver_changes is Fail),
        s.source_changes == 0 && s.resolver_changes == 0 ==> (ci_fails(s, policy) <==> s.confidence_changes != 0 && policy.confidence_changes is Fail),
        ci_fails(s, policy) && more.source_changes >= s.source_changes && more.resolver_changes >= s.resolver_changes && more.confidence_changes >= s.confidence_changes ==> ci_fails(
            more,
            policy,
        ),
        ci_fails(s, policy) ==> s.source_changes != 0 || ci_fails(CiSummary { source_changes: 0, confidence_changes: 0, ..s }, policy) || ci_fails(
            CiSummary { source_changes: 0, resolver_changes: 0, ..s },
            policy,
        ),
{
}

/// A line for a concept that came or went.
pub open spec fn concept_line(sign: Seq<char>, c: Concept) -> Seq<char> {
    sign + c.id@ + " \u{2014} "@ + type_label(c) + "\n"@
}

/// The lines for the concepts.
pub open spec fn concept_lines(sign: Seq<char>, cs: Seq<Concept>) -> spec_fn(int) -> Seq<char> {
    |i: int| concept_line(sign, cs[i])
}

/// The concepts under a heading; nothing for none.
pub open spec fn concept_section(heading: Seq<char>, sign: Seq<char>, cs: Seq<Concept>) -> Seq<char> {
    if cs.len() == 0 {
        Seq::empty()
    } else {
        heading + decimal(cs.len()) + "):\n"@ + gather(concept_lines(sign, cs), cs.len())
    }
}

/// The lines for a concept that changed; its signatures where they differ.
pub open spec fn changed_line(c: ChangedConcept) -> Seq<char> {
    "  ~ "@ + c.id@ + " \u{2014} "@ + kind_label(c.kind) + "\n"@ + (if opt_text(c.before_signature) == opt_text(c.after_signature) {
        Seq::empty()
    } else {
        framed("      - "@, opt_text(c.before_signature), "\n"@) + framed("      + "@, opt_text(c.after_signature), "\n"@)
    })
}

/// The lines for the concepts that changed.
pub open spec fn changed_lines(cs: Seq<ChangedConcept>) -> spec_fn(int) -> Seq<char> {
    |i: int| changed_line(cs[i])
}

/// The concepts that changed, under their heading; nothing for none.
pub open spec fn changed_section(cs: Seq<ChangedConcept>) -> Seq<char> {
    if cs.len() == 0 {
        Seq::empty()
    } else {
        "Changed ("@ + decimal(cs.len()) + "):\n"@ + gather(changed_lines(cs), cs.len())
    }
}

/// That there is nothing to report.
pub open spec fn no_changes(from: Seq<char>, to: Seq<char>) -> Seq<char> {
    "No concept-level changes between "@ + from + " and "@ + to + "\n"@
}

fn no_changes_text(from_ref: &str, to_ref: &str) -> (r: String)
    ensures
        r@ == no_changes(from_ref@, to_ref@),
{
    let mut out = "No concept-level changes between ".to_owned();
    out.append(from_ref);
    out.append(" and ");
    out.append(to_ref);
    out.append("\n");
    out
}

fn push_concepts(out: &mut String, heading: &str, sign: &str, concepts: &Vec<Concept>)
    ensures
        final(out)@ == old(out)@ + concept_section(heading@, sign@, concepts@),
{
    if concepts.len() == 0 {
        assert(out@ =~= old(out)@ + Seq::empty());
        return;
    }
    let ghost f = concept_lines(sign@, concepts@);
    out.append(heading);
    out.append(decimal_text(concepts.len()).as_str());
    out.append("):\n");
    let ghost first = out@;
    assert(out@ =~= first + gather(f, 0));
    for i in 0..concepts.len()
        invariant
            f == concept_lines(sign@, concepts@),
            out@ == first + gather(f, i as nat),
    {
        let ghost before = out@;
        out.append(sign);
        out.append(concepts[i].id.as_str());
        out.append(" \u{2014} ");
        out.append(concepts[i].frontmatter_type().as_str());
        out.append("\n");
        assert(out@ =~= before + concept_line(sign@, concepts@[i as int]));
        assert(out@ =~= first + gather(f, (i + 1) as nat));
    }
    assert(out@ =~= old(out)@ + concept_section(heading@, sign@, concepts@));
}

/// Puts the lines for a concept that changed.
fn push_changed_line(out: &mut String, c: &ChangedConcept)
    ensures
        final(out)@ == old(out)@ + changed_line(*c),
{
    out.append("  ~ ");
    out.append(c.id.as_str());
    out.append(" \u{2014} ");
    out.append(c.kind.label());
    out.append("\n");
    let ghost head = "  ~ "@ + c.id@ + " \u{2014} "@ + kind_label(c.kind) + "\n"@;
    assert(out@ =~= old(out)@ + head);
    if !same_opt(&c.before_signature, &c.after_signature) {
        push_framed(out, "      - ", &c.before_signature, "\n");
        push_framed(out, "      + ", &c.after_signature, "\n");
        assert(out@ =~= old(out)@ + (head + (framed("      - "@, opt_text(c.before_signature), "\n"@) + framed("      + "@, opt_text(c.after_signature), "\n"@))));
    } else {
        assert(out@ =~= old(out)@ + (head + Seq::empty()));
    }
}

fn push_changed(out: &mut String, changed: &Vec<ChangedConcept>)
    ensures
        final(out)@ == old(out)@ + changed_section(changed@),
{
    if changed.len() == 0 {
        assert(out@ =~= old(out)@ + Seq::empty());
        return;
    }
    let ghost f = changed_lines(changed@);
    out.append("Changed (");
    out.append(decimal_text(changed.len()).as_str());
    out.append("):\n");
    let ghost first = out@;
    assert(out@ =~= first + gather(f, 0));
    for i in 0..changed.len()
        invariant
            f == changed_lines(changed@),
            out@ == first + gather(f, i as nat),
    {
        push_changed_line(out, &changed[i]);
        assert(out@ =~= first + gather(f, (i + 1) as nat));
    }
    assert(out@ =~= old(out)@ + changed_section(changed@));
}

/// The diff as text.
pub open spec fn diff_text(r: DiffReport, from: Seq<char>, to: Seq<char>) -> Seq<char> {
    if r.added@.len() == 0 && r.removed@.len() == 0 && r.changed@.len() == 0 {
        no_changes(from, to)
    } else {
        concept_section("Added ("@, "  + "@, r.added@) + concept_section("Removed ("@, "  - "@, r.removed@) + changed_section(r.changed@)
    }
}

/// What came, what went and what changed.
pub fn render_diff(report: &DiffReport, from_ref: &str, to_ref: &str) -> (r: String)
    ensures
        r@ == diff_text(*report, from_ref@, to_ref@),
{
    if report.is_empty() {
        return no_changes_text(from_ref, to_ref);
    }
    let mut out = String::new();
    push_concepts(&mut out, "Added (", "  + ", &report.added);
    push_concepts(&mut out, "Removed (", "  - ", &report.removed);
    push_changed(&mut out, &report.changed);
    assert(out@ =~= diff_text(*report, from_ref@, to_ref@));
    out
}

/// The sign of a change.
pub open spec fn change_sign(change: ChangeKind) -> Seq<char> {
    match change {
        ChangeKind::Added => "+"@,
        ChangeKind::Removed => "-"@,
        ChangeKind::Changed => "~"@,
    }
}

/// What is to be said of a changed concept besides.
pub open spec fn impact_flags(public: bool, cycle: bool) -> Seq<char> {
    match (public, cycle) {
        (true, true) => " [public API, in a call cycle]"@,
        (true, false) => " [public API]"@,
        (false, true) => " [in a call cycle]"@,
        (false, false) => Seq::empty(),
    }
}

/// How far a change reaches.
pub open spec fn radius_text(radius: Seq<Seq<char>>) -> Seq<char> {
    if radius.len() == 0 {
        "none (nothing else calls this, directly or transitively)\n"@
    } else {
        decimal(radius.len()) + " concept(s): "@ + join(radius, ", "@) + "\n"@
    }
}

/// The lines for a concept that changed.
pub open spec fn impact_line(c: ImpactedConcept) -> Seq<char> {
    "  "@ + change_sign(c.change) + " "@ + c.id@ + " \u{2014} "@ + kind_label(c.kind) + impact_flags(c.is_public_api, c.in_cycle)
        + "\n      blast radius: "@ + radius_text(texts(c.blast_radius@))
}

/// The lines for the concepts that changed.
pub open spec fn impact_lines(cs: Seq<ImpactedConcept>) -> spec_fn(int) -> Seq<char> {
    |i: int| impact_line(cs[i])
}

/// The impact of a change as text.
pub open spec fn impact_text(cs: Seq<ImpactedConcept>, from: Seq<char>, to: Seq<char>) -> Seq<char> {
    if cs.len() == 0 {
        no_changes(from, to)
    } else {
        decimal(cs.len()) + " concept(s) changed between "@ + from + " and "@ + to + ", ordered by blast radius (most affected first):\n\n"@ + gather(
            impact_lines(cs),
            cs.len(),
        )
    }
}

fn sign_of(change: ChangeKind) -> (r: &'static str)
    ensures
        r@ == change_sign(change),
{
    match change {
        ChangeKind::Added => "+",
        ChangeKind::Removed => "-",
        ChangeKind::Changed => "~",
    }
}

fn push_flags(out: &mut String, public: bool, cycle: bool)
    ensures
        final(out)@ == old(out)@ + impact_flags(public, cycle),
{
    if public && cycle {
        out.append(" [public API, in a call cycle]");
    } else if public {
        out.append(" [public API]");
    } else if cycle {
        out.append(" [in a call cycle]");
    } else {
        assert(out@ =~= old(out)@ + Seq::empty());
    }
}

fn push_radius(out: &mut String, radius: &Vec<String>)
    ensures
        final(out)@ == old(out)@ + radius_text(texts(radius@)),
{
    if radius.len() == 0 {
        out.append("none (nothing else calls this, directly or transitively)\n");
    } else {
        out.append(decimal_text(radius.len()).as_str());
        out.append(" concept(s): ");
        out.append(join_texts(radius, ", ").as_str());
        out.append("\n");
        assert(out@ =~= old(out)@ + radius_text(texts(radius@)));
    }
}

fn push_impact_line(out: &mut String, c: &ImpactedConcept)
    ensures
        final(out)@ == old(out)@ + impact_line(*c),
{
    out.append("  ");
    out.append(sign_of(c.change));
    out.append(" ");
    out.append(c.id.as_str());
    out.append(" \u{2014} ");
    out.append(c.kind.label());
    push_flags(out, c.is_public_api, c.in_cycle);
    out.append("\n      blast radius: ");
    push_radius(out, &c.blast_radius);
    assert(out@ =~= old(out)@ + impact_line(*c));
}

/// What changed, with how far each change reaches.
pub fn render_impact(report: &ImpactReport, from_ref: &str, to_ref: &str) -> (r: String)
    ensures
        r@ == impact_text(report.impacted@, from_ref@, to_ref@),
{
    let ghost cs = report.impacted@;
    if report.impacted.len() == 0 {
        return no_changes_text(from_ref, to_ref);
    }
    let ghost f = impact_lines(cs);
    let mut out = decimal_text(report.impacted.len());
    out.append(" concept(s) changed between ");
    out.append(from_ref);
    out.append(" and ");
    out.append(to_ref);
    out.append(", ordered by blast radius (most affected first):\n\n");
    let ghost first = out@;
    assert(out@ =~= first + gather(f, 0));
    for i in 0..report.impacted.len()
        invariant
            cs == report.impacted@,
            f == impact_lines(cs),
            out@ == first + gather(f, i as nat),
    {
        push_impact_line(&mut out, &report.impacted[i]);
        assert(out@ =~= first + gather(f, (i + 1) as nat));
    }
    out
}

/// What a posted report begins with, so that it can be found again.
pub const REVIEW_MARKER: &'static str = "<!-- okf-rs-review -->";

/// What each changed concept reaches.
pub open spec fn reach_of(cs: Seq<ImpactedConcept>) -> spec_fn(int) -> Seq<Seq<char>> {
    |i: int| texts(cs[i].blast_radius@)
}

/// Everything that is reached, each once.
pub open spec fn reached(cs: Seq<ImpactedConcept>) -> Set<Seq<char>> {
    gather(reach_of(cs), cs.len()).to_set()
}

/// What happened to a concept, in words.
pub open spec fn change_words(change: ChangeKind) -> Seq<char> {
    match change {
        ChangeKind::Added => "\u{2795} added"@,
        ChangeKind::Removed => "\u{2796} removed"@,
        ChangeKind::Changed => "\u{270f}\u{fe0f} changed"@,
    }
}

/// The table's row for a changed concept.
pub open spec fn impact_row(c: ImpactedConcept) -> Seq<char> {
    "| "@ + change_words(c.change) + " | `"@ + c.id@ + "` | "@ + kind_label(c.kind) + " | "@ + decimal(c.blast_radius@.len()) + " | "@ + only_if(
        c.is_public_api,
        "\u{2705}"@,
    ) + " | "@ + only_if(c.in_cycle, "\u{26a0}\u{fe0f}"@) + " |\n"@
}

/// The table's rows.
pub open spec fn impact_rows(cs: Seq<ImpactedConcept>) -> spec_fn(int) -> Seq<char> {
    |i: int| impact_row(cs[i])
}

/// The impact of a change as a page to be posted.
pub open spec fn impact_page(cs: Seq<ImpactedConcept>, from: Seq<char>, to: Seq<char>) -> Seq<char> {
    REVIEW_MARKER@ + "\n## okf-rs impact report: `"@ + from + "` \u{2192} `"@ + to + "`\n\n"@ + (if cs.len() == 0 {
        "No concept-level changes between these two refs.\n"@
    } else {
        decimal(cs.len()) + " concept(s) changed, affecting "@ + decimal(reached(cs).len())
            + " other concept(s) transitively (ordered by blast radius, most affected first).\n\n"@
            + "| Change | Concept | Kind | Blast radius | Public API | In cycle |\n|---|---|---|---|---|---|\n"@ + gather(impact_rows(cs), cs.len())
            + "\n_Deterministic, structural blast-radius analysis (`okf-rs impact`) \u{2014} not a substitute for human review._\n"@
    })
}

fn words_for(change: ChangeKind) -> (r: &'static str)
    ensures
        r@ == change_words(change),
{
    match change {
        ChangeKind::Added => "\u{2795} added",
        ChangeKind::Removed => "\u{2796} removed",
        ChangeKind::Changed => "\u{270f}\u{fe0f} changed",
    }
}

fn push_impact_row(out: &mut String, c: &ImpactedConcept)
    ensures
        final(out)@ == old(out)@ + impact_row(*c),
{
    out.append("| ");
    out.append(words_for(c.change));
    out.append(" | `");
    out.append(c.id.as_str());
    out.append("` | ");
    out.append(c.kind.label());
    out.append(" | ");
    out.append(decimal_text(c.blast_radius.len()).as_str());
    out.append(" | ");
    push_if(out, c.is_public_api, "\u{2705}");
    out.append(" | ");
    push_if(out, c.in_cycle, "\u{26a0}\u{fe0f}");
    out.append(" |\n");
    assert(out@ =~= old(out)@ + impact_row(*c));
}

fn count_reached(impacted: &Vec<ImpactedConcept>) -> (r: usize)
    ensures
        r == reached(impacted@).len(),
{
    let ghost f = reach_of(impacted@);
    let mut all: Vec<&str> = Vec::new();
    assert(str_views(all@) =~= gather(f, 0));
    for i in 0..impacted.len()
        invariant
            f == reach_of(impacted@),
            str_views(all@) == gather(f, i as nat),
    {
        let ghost first = str_views(all@);
        let radius = &impacted[i].blast_radius;
        assert(first =~= first + texts(radius@).take(0));
        for k in 0..radius.len()
            invariant
                str_views(all@) == first + texts(radius@).take(k as int),
        {
            let ghost before = str_views(all@);
            all.push(radius[k].as_str());
            assert(str_views(all@) =~= before.push(radius@[k as int]@));
            assert(texts(radius@).take(k + 1) =~= texts(radius@).take(k as int).push(radius@[k as int]@));
            assert(str_views(all@) =~= first + texts(radius@).take(k + 1));
        }
        assert(texts(radius@).take(radius@.len() as int) =~= texts(radius@));
    }
    let once = sorted_texts(&all);
    proof {
        let (ov, av) = (str_views(once@), str_views(all@));
        assert(ov.no_duplicates()) by {
            assert forall|i: int, j: int| 0 <= i < j < ov.len() implies ov[i] != ov[j] by {
                lemma_lex_irreflexive(ov[i]);
            }
        }
        ov.unique_seq_to_set();
        assert(ov.to_set() =~= av.to_set()) by {
            assert forall|t: Seq<char>| ov.to_set().contains(t) <==> av.to_set().contains(t) by {
                assert(ov.contains(t) <==> av.contains(t));
            }
        }
    }
    once.len()
}

/// The impact of a change as a page that can be posted and found again.
pub fn render_review_markdown(report: &ImpactReport, from_ref: &str, to_ref: &str) -> (r: String)
    ensures
        r@ == impact_page(report.impacted@, from_ref@, to_ref@),
{
    let ghost cs = report.impacted@;
    let ghost f = impact_rows(cs);
    let mut out = REVIEW_MARKER.to_owned();
    out.append("\n## okf-rs impact report: `");
    out.append(from_ref);
    out.append("` \u{2192} `");
    out.append(to_ref);
    out.append("`\n\n");
    let ghost head = out@;
    if report.impacted.len() == 0 {
        out.append("No concept-level changes between these two refs.\n");
        return out;
    }
    out.append(decimal_text(report.impacted.len()).as_str());
    out.append(" concept(s) changed, affecting ");
    out.append(decimal_text(count_reached(&report.impacted)).as_str());
    out.append(" other concept(s) transitively (ordered by blast radius, most affected first).\n\n");
    out.append("| Change | Concept | Kind | Blast radius | Public API | In cycle |\n|---|---|---|---|---|---|\n");
    let ghost first = out@;
    assert(out@ =~= first + gather(f, 0));
    for i in 0..report.impacted.len()
        invariant
            cs == report.impacted@,
            f == impact_rows(cs),
            out@ == first + gather(f, i as nat),
    {
        push_impact_row(&mut out, &report.impacted[i]);
        assert(out@ =~= first + gather(f, (i + 1) as nat));
    }
    out.append("\n_Deterministic, structural blast-radius analysis (`okf-rs impact`) \u{2014} not a substitute for human review._\n");
    assert(out@ =~= impact_page(cs, from_ref@, to_ref@));
    out
}

/// Some change reaches at least so many concepts.
pub open spec fn reaches(cs: Seq<ImpactedConcept>, threshold: nat) -> bool {
    exists|i: int| 0 <= i < cs.len() && (#[trigger] cs[i]).blast_radius@.len() >= threshold
}

/// Whether some change reaches as many concepts as the limit says; without a
/// limit, none does.
pub fn is_risky(report: &ImpactReport, fail_on_risk: Option<usize>) -> (r: bool)
    ensures
        r == (fail_on_risk matches Some(threshold) && reaches(report.impacted@, threshold as nat)),
{
    let threshold: usize = match fail_on_risk {
        Some(t) => t,
        None => {
            return false;
        },
    };
    for i in 0..report.impacted.len()
        invariant
            fail_on_risk == Some(threshold),
            forall|k: int| 0 <= k < i ==> (#[trigger] report.impacted@[k]).blast_radius@.len() < threshold,
    {
        if report.impacted[i].blast_radius.len() >= threshold {
            assert(report.impacted@[i as int].blast_radius@.len() >= threshold);
            return true;
        }
    }
    false
}

/// A higher limit is never the stricter one.
pub proof fn a_higher_limit_allows_more(cs: Seq<ImpactedConcept>, low: nat, high: nat)
    requires
        low <= high,
        reaches(cs, high),
    ensures
        reaches(cs, low),
{
    let i = choose|i: int| 0 <= i < cs.len() && (#[trigger] cs[i]).blast_radius@.len() >= high;
    assert(cs[i].blast_radius@.len() >= low);
}

/// How bad something about a bundle is.
#[derive(Clone, Copy, Debug, PartialEq, Eq, Structural)]
pub enum Severity {
    Error,
    Warning,
}

/// What is wrong about a bundle.
#[derive(Clone, Copy, Debug, PartialEq, Eq, Structural)]
pub enum IssueKind {
    /// A concept that nothing links to.
    Orphan,
    /// Anything else, by the number its check gives it.
    Other(u32),
}

/// Something that is wrong about a bundle.
#[derive(Debug)]
pub struct Issue {
    pub severity: Severity,
    pub kind: IssueKind,
    pub file: String,
    pub message: String,
}

/// The line for something that is wrong.
pub open spec fn issue_line(i: Issue) -> Seq<char> {
    (match i.severity {
        Severity::Error => "error"@,
        Severity::Warning => "warning"@,
    }) + ": "@ + i.file@ + ": "@ + i.message@ + "\n"@
}

/// The lines for all that is wrong.
pub open spec fn issue_lines(issues: Seq<Issue>) -> spec_fn(int) -> Seq<char> {
    |k: int| issue_line(issues[k])
}

/// What is wrong about a bundle, as text.
pub open spec fn validation_text(bundle: Seq<char>, issues: Seq<Issue>) -> Seq<char> {
    if issues.len() == 0 {
        bundle + " \u{2014} no issues found\n"@
    } else {
        gather(issue_lines(issues), issues.len())
    }
}

/// Something that fails a bundle: an error, or under the strict rules a warning
/// about an orphan.
pub open spec fn is_failure(i: Issue, ci: bool) -> bool {
    i.severity is Error || ci && i.severity is Warning && i.kind is Orphan
}

/// What is wrong about a bundle, and whether that fails it.
pub fn render_validation(bundle: &str, issues: &Vec<Issue>, ci: bool) -> (r: (String, bool))
    ensures
        r.0@ == validation_text(bundle@, issues@),
        r.1 == (exists|k: int| 0 <= k < issues@.len() && is_failure(#[trigger] issues@[k], ci)),
{
    if issues.len() == 0 {
        let mut out = bundle.to_owned();
        out.append(" \u{2014} no issues found\n");
        return (out, false);
    }
    let ghost f = issue_lines(issues@);
    let mut out = String::new();
    let mut fails = false;
    assert(out@ =~= gather(f, 0));
    for i in 0..issues.len()
        invariant
            f == issue_lines(issues@),
            out@ == gather(f, i as nat),
            fails == (exists|k: int| 0 <= k < i && is_failure(#[trigger] issues@[k], ci)),
    {
        let ghost before = out@;
        let issue = &issues[i];
        let bad = match issue.severity {
            Severity::Error => {
                out.append("error");
                true
            },
            Severity::Warning => {
                out.append("warning");
                ci && issue.kind == IssueKind::Orphan
            },
        };
        out.append(": ");
        out.append(issue.file.as_str());
        out.append(": ");
        out.append(issue.message.as_str());
        out.append("\n");
        assert(out@ =~= before + issue_line(issues@[i as int]));
        assert(bad == is_failure(issues@[i as int], ci));
        fails = fails || bad;
    }
    (out, fails)
}

/// A change is too risky exactly from the reach on that the limit names: each
/// entry reaches its own radius, and none reaches past all of them.
pub proof fn the_limit_is_the_first_reach_that_fails(cs: Seq<ImpactedConcept>, k: int, limit: nat)
    ensures
        0 <= k < cs.len() && limit <= cs[k].blast_radius@.len() ==> reaches(cs, limit),
        (forall|j: int| 0 <= j < cs.len() ==> (#[trigger] cs[j]).blast_radius@.len() < limit) ==> !reaches(cs, limit),
{
}

/// An error always fails a bundle, a warning never does but under the strict
/// rules, and then only one about an orphan.
pub proof fn errors_fail_and_orphans_do_under_strict_rules(i: Issue)
    ensures
        i.severity is Error ==> is_failure(i, true) && is_failure(i, false),
        i.severity is Warning ==> !is_failure(i, false),
        i.severity is Warning ==> (is_failure(i, true) <==> i.kind is Orphan),
{
}

/// A diff shows everything that came, went or changed, and an impact report
/// shows every entry.
pub proof fn reports_show_all_changes(r: DiffReport, cs: Seq<ImpactedConcept>, from: Seq<char>, to: Seq<char>)
    ensures
        forall|i: int| 0 <= i < r.added@.len() ==> shows(diff_text(r, from, to), "  + "@ + (#[trigger] r.added@[i]).id@),
        forall|i: int| 0 <= i < r.removed@.len() ==> shows(diff_text(r, from, to), "  - "@ + (#[trigger] r.removed@[i]).id@),
        forall|i: int| 0 <= i < r.changed@.len() ==> shows(diff_text(r, from, to), "  ~ "@ + (#[trigger] r.changed@[i]).id@),
        forall|i: int| 0 <= i < cs.len() ==> shows(impact_text(cs, from, to), impact_line(#[trigger] cs[i])),
{
    let a = concept_section("Added ("@, "  + "@, r.added@);
    let b = concept_section("Removed ("@, "  - "@, r.removed@);
    let c = changed_section(r.changed@);
    assert forall|i: int| 0 <= i < r.added@.len() implies shows(diff_text(r, from, to), "  + "@ + (#[trigger] r.added@[i]).id@) by {
        let piece = "  + "@ + r.added@[i].id@;
        lemma_section_shows("Added ("@, "  + "@, r.added@, i);
        lemma_shows_within(Seq::empty(), a, b + c, piece);
        assert(diff_text(r, from, to) =~= Seq::<char>::empty() + a + (b + c));
    }
    assert forall|i: int| 0 <= i < r.removed@.len() implies shows(diff_text(r, from, to), "  - "@ + (#[trigger] r.removed@[i]).id@) by {
        let piece = "  - "@ + r.removed@[i].id@;
        lemma_section_shows("Removed ("@, "  - "@, r.removed@, i);
        lemma_shows_within(a, b, c, piece);
    }
    assert forall|i: int| 0 <= i < r.changed@.len() implies shows(diff_text(r, from, to), "  ~ "@ + (#[trigger] r.changed@[i]).id@) by {
        let piece = "  ~ "@ + r.changed@[i].id@;
        let f = changed_lines(r.changed@);
        let line = changed_line(r.changed@[i]);
        assert(f(i) == line);
        assert(line.subrange(0, piece.len() as int) =~= piece);
        assert(shows_at(line, piece, 0));
        lemma_shows_gathered(f, r.changed@.len(), i, piece);
        let head = "Changed ("@ + decimal(r.changed@.len()) + "):\n"@;
        lemma_shows_within(head, gather(f, r.changed@.len()), Seq::empty(), piece);
        assert(c =~= head + gather(f, r.changed@.len()) + Seq::empty());
        lemma_shows_within(a + b, c, Seq::empty(), piece);
        assert(diff_text(r, from, to) =~= a + b + c + Seq::empty());
    }
    assert forall|i: int| 0 <= i < cs.len() implies shows(impact_text(cs, from, to), impact_line(#[trigger] cs[i])) by {
        let piece = impact_line(cs[i]);
        let f = impact_lines(cs);
        assert(f(i) == piece);
        lemma_shows_itself(piece);
        lemma_shows_gathered(f, cs.len(), i, piece);
        let head = decimal(cs.len()) + " concept(s) changed between "@ + from + " and "@ + to + ", ordered by blast radius (most affected first):\n\n"@;
        lemma_shows_within(head, gather(f, cs.len()), Seq::empty(), piece);
        assert(impact_text(cs, from, to) =~= head + gather(f, cs.len()) + Seq::empty());
    }
}

proof fn lemma_section_shows(heading: Seq<char>, sign: Seq<char>, cs: Seq<Concept>, i: int)
    requires
        0 <= i < cs.len(),
    ensures
        shows(concept_section(heading, sign, cs), sign + cs[i].id@),
{
    let piece = sign + cs[i].id@;
    let f = concept_lines(sign, cs);
    let line = concept_line(sign, cs[i]);
    assert(f(i) == line);
    assert(line.subrange(0, piece.len() as int) =~= piece);
    assert(shows_at(line, piece, 0));
    lemma_shows_gathered(f, cs.len(), i, piece);
    let head = heading + decimal(cs.len()) + "):\n"@;
    lemma_shows_within(head, gather(f, cs.len()), Seq::empty(), piece);
    assert(concept_section(heading, sign, cs) =~= head + gather(f, cs.len()) + Seq::empty());
}

/// The concepts that a report counts as affected are those that some entry
/// reaches, each once.
pub proof fn affected_is_what_some_change_reaches(cs: Seq<ImpactedConcept>, t: Seq<char>)
    ensures
        reached(cs).contains(t) <==> exists|i: int| 0 <= i < cs.len() && texts((#[trigger] cs[i]).blast_radius@).contains(t),
{
    let f = reach_of(cs);
    lemma_gather_holds(f, cs.len(), t);
    if exists|i: int| 0 <= i < cs.len() && texts((#[trigger] cs[i]).blast_radius@).contains(t) {
        let i = choose|i: int| 0 <= i < cs.len() && texts((#[trigger] cs[i]).blast_radius@).contains(t);
        assert(f(i).contains(t));
    }
    if gather(f, cs.len()).contains(t) {
        let i = choose|i: int| 0 <= i < cs.len() && (#[trigger] f(i)).contains(t);
        assert(texts(cs[i].blast_radius@).contains(t));
    }
}

}
