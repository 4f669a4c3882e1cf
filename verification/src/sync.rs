//! Bringing one target catalog up to date: what it lacks, how the job for it
//! starts, and how the translated entries join the catalog.

use crate::entry::{views, Entry, EntryView};
use crate::files::TargetFile;
use crate::index::{indexed, lemma_recorded_all_joined, missing_entries, EntryIndex};
use crate::job::{translated, JobView, TranslationJob};
use crate::language::{backend_id, match_to_deepl_lang};
use vstd::prelude::*;

verus! {

/// The entries of several catalogs in one list: catalog after catalog, each
/// in its own order.
pub open spec fn joined(catalogs: Seq<Seq<EntryView>>) -> Seq<EntryView>
    decreases catalogs.len(),
{
    if catalogs.len() == 0 {
        Seq::empty()
    } else {
        joined(catalogs.drop_last()) + catalogs.last()
    }
}

/// The models of several catalogs, one for one.
pub open spec fn catalog_views(catalogs: Seq<Vec<Entry>>) -> Seq<Seq<EntryView>> {
    catalogs.map_values(|c: Vec<Entry>| views(c@))
}

/// The base of a run: the index of the catalogs in the source language.
///
/// The catalogs are read in the order in which they are given, which is the
/// order of their files in the run's list. Where two of them hold one key,
/// the entry of the later catalog stands in the base, at the place that the
/// key first took.
pub fn base_index(catalogs: Vec<Vec<Entry>>) -> (base: EntryIndex)
    ensures
        base.wf(),
        base@ == indexed(joined(catalog_views(catalogs@))),
{
    let mut base = EntryIndex::new();
    let ghost all = catalog_views(catalogs@);
    assert(all.take(0) =~= Seq::<Seq<EntryView>>::empty());
    for catalog in it: catalogs
        invariant
            base.wf(),
            it.seq() == catalogs@,
            all == catalog_views(catalogs@),
            base@ == indexed(joined(all.take(it.index() as int))),
    {
        proof {
            let done = it.index() as int;
            assert(all.take(done + 1).drop_last() =~= all.take(done));
            assert(all.take(done + 1).last() == views(catalog@));
            lemma_recorded_all_joined(Seq::empty(), joined(all.take(done)), views(catalog@));
        }
        base.extend(catalog);
    }
    assert(all.take(all.len() as int) =~= all);
    base
}

/// The entries that the catalog `catalog` lacks of the base `base`: those of
/// the base, in the base's order, whose keys the catalog does not hold.
pub open spec fn lacking(base: Seq<EntryView>, catalog: Seq<EntryView>) -> Seq<EntryView> {
    missing_entries(base, indexed(catalog))
}

/// The catalog `catalog` after it is brought up to date with the base `base`,
/// where the backend answers the requests, in the order in which they are
/// made, with `replies`: the catalog as it was, and after it the entries it
/// lacked, translated.
pub open spec fn synchronized(
    base: Seq<EntryView>,
    catalog: Seq<EntryView>,
    replies: Seq<Seq<char>>,
) -> Seq<EntryView> {
    catalog + translated(lacking(base, catalog), replies)
}

/// Finds the entries of `base` that the catalog `catalog` lacks.
pub fn missing_for(base: &EntryIndex, catalog: Vec<Entry>) -> (missing: Vec<Entry>)
    requires
        base.wf(),
    ensures
        views(missing@) == lacking(base@, views(catalog@)),
{
    let held = EntryIndex::build(catalog);
    base.missing_from(&held)
}

/// Starts the job that brings the catalog of `target` up to date:
/// the job holds the entries of `base` that `catalog` lacks, to be translated
/// from the source language into the target's.
pub fn start_job(
    base: &EntryIndex,
    catalog: Vec<Entry>,
    source_language: &str,
    target: &TargetFile,
) -> (job: TranslationJob)
    requires
        base.wf(),
    ensures
        job.wf(),
        job@ == JobView::started(
            lacking(base@, views(catalog@)),
            backend_id(source_language@),
            target.backend@,
        ),
{
    let missing = missing_for(base, catalog);
    TranslationJob::new(missing, match_to_deepl_lang(source_language), target.backend.clone())
}

/// Appends the translated entries to a catalog's entries. Nothing that the
/// catalog holds is changed, moved or dropped, and nothing of what is
/// appended is compared with it.
pub fn merge(existing: Vec<Entry>, translated: Vec<Entry>) -> (merged: Vec<Entry>)
    ensures
        views(merged@) == views(existing@) + views(translated@),
{
    let mut merged = existing;
    let mut added = translated;
    merged.append(&mut added);
    assert(views(merged@) =~= views(existing@) + views(translated@));
    merged
}

} // verus!
