//! What the reports on a graph are made of: the label in a canonical name,
//! the atom of the call graph for a stub, and the status of a proof.
use crate::model::LineRange;
use crate::text::{clone_strings, opt_views, substring, to_chars, views};
use vstd::prelude::*;

verus! {

/// The index at which the last segment of `name` starts: behind its last
/// slash, or at 0 when it has none.
pub open spec fn segment_start(name: Seq<char>) -> int
    decreases name.len(),
{
    if name.len() == 0 {
        0
    } else if name.last() == '/' {
        name.len() as int
    } else {
        segment_start(name.drop_last())
    }
}

/// What stands behind the last slash of `name`; all of it without a slash.
pub open spec fn last_segment(name: Seq<char>) -> Seq<char> {
    name.subrange(segment_start(name), name.len() as int)
}

/// The label in a canonical name: what stands behind its last slash.
pub fn stub_label(stub_name: &str) -> (label: String)
    ensures
        label@ == last_segment(stub_name@),
{
    let name = to_chars(stub_name);
    let mut start: usize = name.len();
    assert(name@.take(start as int) =~= name@);
    while start > 0 && name[start - 1] != '/'
        invariant
            start <= name.len(),
            segment_start(name@) == segment_start(name@.take(start as int)),
        decreases start,
    {
        assert(name@.take(start as int).drop_last() =~= name@.take(start - 1));
        start = start - 1;
    }
    proof {
        if start > 0 {
            assert(name@.take(start as int).last() == name@[start - 1]);
        }
        assert(segment_start(name@) == start);
    }
    substring(&name, start, name.len())
}

/// One node of the call graph.
#[derive(Debug, Clone)]
pub struct Atom {
    pub display_name: String,
    pub dependencies: Vec<String>,
    pub stub_path: String,
    pub stub_text: LineRange,
}

/// The dependencies of a statement followed by those of its proof.
pub open spec fn all_dependencies(spec_side: Seq<Seq<char>>, proof_side: Option<Seq<Seq<char>>>)
    -> Seq<Seq<char>> {
    match proof_side {
        Some(more) => spec_side + more,
        None => spec_side,
    }
}

/// The atom for a stub: it is shown under the label in the stub's name,
/// depends on what the statement and its proof depend on, in this order,
/// and its text is the statement.
pub fn atom_of(
    stub_name: &str,
    stub_path: &str,
    stub_spec: LineRange,
    spec_dependencies: &Vec<String>,
    proof_dependencies: &Option<Vec<String>>,
) -> (atom: Atom)
    ensures
        atom.display_name@ == last_segment(stub_name@),
        views(atom.dependencies@) == all_dependencies(
            views(spec_dependencies@),
            opt_views(*proof_dependencies),
        ),
        atom.stub_path@ == stub_path@,
        atom.stub_text == stub_spec,
{
    let mut dependencies = clone_strings(spec_dependencies);
    match proof_dependencies {
        Some(more) => {
            let ghost own = views(dependencies@);
            let mut copy = clone_strings(more);
            let ghost added = views(copy@);
            dependencies.append(&mut copy);
            assert(views(dependencies@) =~= own + added);
        },
        None => {},
    }
    Atom {
        display_name: stub_label(stub_name),
        dependencies: dependencies,
        stub_path: stub_path.to_owned(),
        stub_text: stub_spec,
    }
}

/// Whether a proof is verified, and the word for it.
#[derive(Debug, Clone)]
pub struct ProofStatus {
    pub verified: bool,
    pub status: String,
}

/// The status of a proof: verified, with the word `success`, exactly if its
/// flag is set; else the word is `sorries`.
pub fn proof_status(proof_ok: Option<bool>) -> (r: ProofStatus)
    ensures
        r.verified == (proof_ok == Some(true)),
        r.status@ == if r.verified {
            "success"@
        } else {
            "sorries"@
        },
{
    let verified = match proof_ok {
        Some(flag) => flag,
        None => false,
    };
    let status = if verified {
        "success".to_owned()
    } else {
        "sorries".to_owned()
    };
    ProofStatus { verified: verified, status: status }
}

} // verus!
