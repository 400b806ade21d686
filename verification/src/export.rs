//! Driving assembly over one document, one resolved prefix, or a whole index.

use vstd::prelude::*;

use crate::ExportError;
use crate::assembly::{
    ExportContainer, RecordModel, SpecModel, accepted_count, build_forest, complete, pool_model,
    records_of, same_header, spec_model, specs_model,
};
use crate::document::{Document, DocumentIndex, lookup};
use crate::hierarchy::{NodeModel, chain_len, forest_model};
use vstd::string::StringExecFns;

verus! {

/// What assembling one document into a container guarantees: the pool gains
/// exactly one record per processed item; on success, one specification with
/// the given identity, carrying the forest built from all items, is
/// appended; on failure, the item that found no ancestor is reported and no
/// specification is appended.
pub open spec fn assembly_post(
    document: Document,
    id: Seq<char>,
    name: Seq<char>,
    pre: ExportContainer,
    post: ExportContainer,
    now: Seq<char>,
    r: Result<(), ExportError>,
) -> bool {
    let items = document.items_sorted_by_level@;
    let k = accepted_count(items, 0);
    &&& same_header(post, pre)
    &&& pool_model(post.requirement_pool@) == pool_model(pre.requirement_pool@) + records_of(
        items.take(k),
        now,
    )
    &&& match r {
        Ok(()) => k == items.len() && specs_model(post.specifications@) == specs_model(
            pre.specifications@,
        ).push(
            SpecModel {
                id: id,
                last_change: now,
                name: name,
                forest: build_forest(Seq::empty(), items, now),
            },
        ),
        Err(e) => {
            &&& k < items.len()
            &&& post.specifications == pre.specifications
            &&& (e matches ExportError::MissingAncestor { item_id, level } && item_id@
                == items[k].id@ && level@ == items[k].level@)
        },
    }
}

/// Assembles one document under an explicit specification id and name.
pub fn create_specification_named(
    document: &Document,
    container: &mut ExportContainer,
    id: String,
    name: String,
    now: &String,
) -> (r: Result<(), ExportError>)
    ensures
        assembly_post(*document, id@, name@, *old(container), *final(container), now@, r),
{
    let mut specification = container.build_module_specification(id, now.clone(), name);
    let ghost base = forest_model(specification.root_children@);
    proof {
        assert(base =~= Seq::<NodeModel>::empty());
        assert(chain_len(base) == 0);
    }
    match complete(document, container, &mut specification, now) {
        Err(e) => Err(e),
        Ok(()) => {
            let ghost items = document.items_sorted_by_level@;
            let ghost prevspecs = container.specifications@;
            let ghost specv = specification;
            proof {
                assert(items.take(items.len() as int) =~= items);
            }
            container.add_specification(specification);
            proof {
                let newspecs = container.specifications@;
                assert(newspecs == prevspecs.push(specv));
                assert(specs_model(newspecs).len() == specs_model(prevspecs).push(
                    spec_model(specv),
                ).len());
                assert forall|t: int| 0 <= t < newspecs.len() implies specs_model(newspecs)[t]
                    == specs_model(prevspecs).push(spec_model(specv))[t] by {
                    if t < prevspecs.len() {
                        assert(newspecs[t] == prevspecs[t]);
                        assert(specs_model(prevspecs)[t] == spec_model(prevspecs[t]));
                    } else {
                        assert(newspecs[t] == specv);
                    }
                }
                assert(specs_model(newspecs) =~= specs_model(prevspecs).push(spec_model(specv)));
            }
            Ok(())
        },
    }
}

/// Assembles one document as its prefix names it: the specification's id is
/// the prefix, its name is the prefix followed by " Specification".
pub fn create_specification(
    document: &Document,
    container: &mut ExportContainer,
    now: &String,
) -> (r: Result<(), ExportError>)
    ensures
        assembly_post(
            *document,
            document.prefix@,
            document.prefix@ + " Specification"@,
            *old(container),
            *final(container),
            now@,
            r,
        ),
{
    let id = document.prefix.clone();
    let name = document.prefix.clone().concat(" Specification");
    create_specification_named(document, container, id, name, now)
}

/// Exports the single document a prefix resolves to, or reports `NotFound`
/// carrying that prefix, leaving the container untouched.
pub fn export_document(
    index: &DocumentIndex,
    prefix: &String,
    container: &mut ExportContainer,
    now: &String,
) -> (r: Result<(), ExportError>)
    ensures
        match lookup(index.documents@, prefix@) {
            Some(d) => assembly_post(
                d,
                d.prefix@,
                d.prefix@ + " Specification"@,
                *old(container),
                *final(container),
                now@,
                r,
            ),
            None => *final(container) == *old(container) && (r matches Err(e) && (e
                matches ExportError::NotFound { prefix: p } && p@ == prefix@)),
        },
{
    match index.resolve_one(prefix) {
        Err(e) => Err(e),
        Ok(document) => create_specification(document, container, now),
    }
}

/// A document all of whose items find their ancestor: assembly succeeds.
pub open spec fn valid_document(d: Document) -> bool {
    accepted_count(d.items_sorted_by_level@, 0) == d.items_sorted_by_level@.len()
}

/// The specification one document contributes under prefix-derived naming.
pub open spec fn doc_spec_model(d: Document, now: Seq<char>) -> SpecModel {
    SpecModel {
        id: d.prefix@,
        last_change: now,
        name: d.prefix@ + " Specification"@,
        forest: build_forest(Seq::empty(), d.items_sorted_by_level@, now),
    }
}

/// How many leading documents of `docs[i..]` assemble without a structural
/// failure.
pub open spec fn exported_prefix_len(docs: Seq<Document>, i: int) -> int
    decreases docs.len() - i,
{
    if i < 0 || i >= docs.len() {
        0
    } else if valid_document(docs[i]) {
        1 + exported_prefix_len(docs, i + 1)
    } else {
        0
    }
}

/// The specifications contributed by the first `m` documents.
pub open spec fn specs_of(docs: Seq<Document>, m: int, now: Seq<char>) -> Seq<SpecModel> {
    Seq::new(m as nat, |i: int| doc_spec_model(docs[i], now))
}

/// The records registered by the first `j` documents, each cut off at its
/// own accepted count.
pub open spec fn pool_upto(docs: Seq<Document>, j: int, now: Seq<char>) -> Seq<RecordModel>
    decreases j,
{
    if j <= 0 {
        Seq::empty()
    } else {
        let items = docs[j - 1].items_sorted_by_level@;
        pool_upto(docs, j - 1, now) + records_of(items.take(accepted_count(items, 0)), now)
    }
}

/// The count of leading valid documents, read off a stretch of valid
/// documents ending at the first invalid one or at the end.
proof fn lemma_exported_prefix(docs: Seq<Document>, i: int, j: int)
    requires
        0 <= i <= j <= docs.len(),
        forall|t: int| i <= t < j ==> valid_document(#[trigger] docs[t]),
        j == docs.len() || !valid_document(docs[j]),
    ensures
        exported_prefix_len(docs, i) == j - i,
    decreases j - i,
{
    if i < j {
        lemma_exported_prefix(docs, i + 1, j);
    }
}

/// Exports every document of the index, in index order, into independent
/// specifications sharing the container's requirement pool: one
/// specification per document on success. A structural failure in any
/// document stops the run there; the documents before it keep their
/// specifications and records, the failing document keeps the records of its
/// items before the failure, and no later document contributes anything.
pub fn export_all(
    index: &DocumentIndex,
    container: &mut ExportContainer,
    now: &String,
) -> (r: Result<(), ExportError>)
    ensures
        same_header(*final(container), *old(container)),
        ({
            let docs = index.documents@;
            let m = exported_prefix_len(docs, 0);
            &&& specs_model(final(container).specifications@) == specs_model(
                old(container).specifications@,
            ) + specs_of(docs, m, now@)
            &&& match r {
                Ok(()) => m == docs.len() && pool_model(final(container).requirement_pool@)
                    == pool_model(old(container).requirement_pool@) + pool_upto(
                    docs,
                    docs.len() as int,
                    now@,
                ),
                Err(e) => {
                    let items = docs[m].items_sorted_by_level@;
                    let k = accepted_count(items, 0);
                    &&& m < docs.len()
                    &&& pool_model(final(container).requirement_pool@) == pool_model(
                        old(container).requirement_pool@,
                    ) + pool_upto(docs, m, now@) + records_of(items.take(k), now@)
                    &&& k < items.len()
                    &&& (e matches ExportError::MissingAncestor { item_id, level } && item_id@
                        == items[k].id@ && level@ == items[k].level@)
                },
            }
        }),
{
    let ghost docs = index.documents@;
    let ghost specs0 = specs_model(old(container).specifications@);
    let ghost pool0 = pool_model(old(container).requirement_pool@);
    let ndocs = index.documents.len();
    proof {
        assert(specs_of(docs, 0, now@) =~= Seq::<SpecModel>::empty());
        assert(specs0 + specs_of(docs, 0, now@) =~= specs0);
        assert(pool0 + pool_upto(docs, 0, now@) =~= pool0);
    }
    for j in 0..ndocs
        invariant
            ndocs == docs.len(),
            index.documents@ == docs,
            specs0 == specs_model(old(container).specifications@),
            pool0 == pool_model(old(container).requirement_pool@),
            same_header(*container, *old(container)),
            forall|i: int| 0 <= i < j ==> valid_document(#[trigger] docs[i]),
            specs_model(container.specifications@) == specs0 + specs_of(docs, j as int, now@),
            pool_model(container.requirement_pool@) == pool0 + pool_upto(docs, j as int, now@),
    {
        let document = &index.documents[j];
        let ghost prespecs = specs_model(container.specifications@);
        let ghost prepool = pool_model(container.requirement_pool@);
        match create_specification(document, container, now) {
            Err(e) => {
                proof {
                    lemma_exported_prefix(docs, 0, j as int);
                }
                return Err(e);
            },
            Ok(()) => {
                proof {
                    assert(valid_document(docs[j as int]));
                    let dm = doc_spec_model(docs[j as int], now@);
                    let items = docs[j as int].items_sorted_by_level@;
                    assert(items.take(items.len() as int) =~= items);
                    assert(specs_model(container.specifications@) == prespecs.push(dm));
                    assert(specs0 + specs_of(docs, j + 1, now@) =~= prespecs.push(dm));
                    let reco = records_of(
                        items.take(accepted_count(items, 0)),
                        now@,
                    );
                    assert(pool_upto(docs, j + 1, now@) == pool_upto(docs, j as int, now@) + reco);
                    assert(pool0 + pool_upto(docs, j + 1, now@) =~= prepool + reco);
                }
            },
        }
    }
    proof {
        lemma_exported_prefix(docs, 0, docs.len() as int);
    }
    Ok(())
}

} // verus!
