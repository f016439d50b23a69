//! What is read out of one source file: its concepts, and the calls it makes.

use vstd::prelude::*;
use crate::model::{Concept, Language};
use crate::model::{concept_views, ConceptView};

verus! {

/// Where in a file a call stands, counted from zero.
#[derive(Clone, Copy, Debug, PartialEq, Eq, Structural)]
pub struct CallSite {
    pub line: u32,
    pub character: u32,
}

/// A call whose callee is known by its name alone.
#[derive(Debug)]
pub struct CallCandidate {
    pub caller_id: String,
    pub callee_name: String,
    pub call_site: CallSite,
}

/// The text of a call candidate.
#[verifier::ext_equal]
pub struct CallView {
    pub caller_id: Seq<char>,
    pub callee_name: Seq<char>,
    pub call_site: CallSite,
}

impl View for CallCandidate {
    type V = CallView;

    open spec fn view(&self) -> CallView {
        CallView { caller_id: self.caller_id@, callee_name: self.callee_name@, call_site: self.call_site }
    }
}

impl Clone for CallCandidate {
    fn clone(&self) -> (r: CallCandidate)
        ensures
            r@ == self@,
    {
        CallCandidate {
            caller_id: self.caller_id.clone(),
            callee_name: self.callee_name.clone(),
            call_site: self.call_site,
        }
    }
}

/// What each call candidate says.
pub open spec fn call_views(v: Seq<CallCandidate>) -> Seq<CallView> {
    v.map_values(|c: CallCandidate| c@)
}

/// What one source file holds.
#[derive(Debug)]
pub struct FileExtraction {
    pub concepts: Vec<Concept>,
    pub calls: Vec<CallCandidate>,
}

/// The content of an extraction.
#[verifier::ext_equal]
pub struct ExtractionView {
    pub concepts: Seq<ConceptView>,
    pub calls: Seq<CallView>,
}

impl View for FileExtraction {
    type V = ExtractionView;

    open spec fn view(&self) -> ExtractionView {
        ExtractionView { concepts: concept_views(self.concepts@), calls: call_views(self.calls@) }
    }
}

/// Puts copies of the concepts behind those that are there.
pub fn push_concepts(out: &mut Vec<Concept>, more: &Vec<Concept>)
    ensures
        concept_views(final(out)@) == concept_views(old(out)@) + concept_views(more@),
{
    let ghost first = out@;
    for i in 0..more.len()
        invariant
            concept_views(out@) == concept_views(first) + concept_views(more@.take(i as int)),
    {
        let c = more[i].clone();
        let ghost before = out@;
        out.push(c);
        proof {
            assert(concept_views(out@) =~= concept_views(before).push(c@));
            assert(concept_views(more@.take(i + 1)) =~= concept_views(more@.take(i as int)).push(more@[i as int]@));
        }
    }
    assert(more@.take(more@.len() as int) =~= more@);
}

impl Clone for FileExtraction {
    fn clone(&self) -> (r: FileExtraction)
        ensures
            r@ == self@,
    {
        let mut concepts: Vec<Concept> = Vec::new();
        push_concepts(&mut concepts, &self.concepts);
        assert(concept_views(Seq::<Concept>::empty()) + concept_views(self.concepts@) =~= concept_views(self.concepts@));
        let mut calls: Vec<CallCandidate> = Vec::new();
        for i in 0..self.calls.len()
            invariant
                calls.len() == i,
                forall|k: int| 0 <= k < i ==> (#[trigger] calls[k])@ == self.calls[k]@,
        {
            calls.push(self.calls[i].clone());
        }
        assert(call_views(calls@) =~= call_views(self.calls@));
        let r = FileExtraction { concepts, calls };
        assert(concept_views(r.concepts@) =~= concept_views(self.concepts@));
        r
    }
}

/// A call, the language of its file, and the file's path.
#[derive(Debug)]
pub struct CallEntry {
    pub call: CallCandidate,
    pub language: Language,
    pub relative_path: String,
}

/// The content of a call entry.
#[verifier::ext_equal]
pub struct EntryView {
    pub call: CallView,
    pub language: Language,
    pub relative_path: Seq<char>,
}

impl View for CallEntry {
    type V = EntryView;

    open spec fn view(&self) -> EntryView {
        EntryView { call: self.call@, language: self.language, relative_path: self.relative_path@ }
    }
}

/// What each entry says.
pub open spec fn entry_views(v: Seq<CallEntry>) -> Seq<EntryView> {
    v.map_values(|e: CallEntry| e@)
}

}
