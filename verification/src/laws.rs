//! What holds of a whole run, proved from the models of its parts.

use crate::entry::EntryView;
use crate::files::{
    partitioned, partitioned_by, placed, role_of, roles_of, RoleView, SkippedView, TargetView,
};
use crate::index::{
    has_key, indexed, lemma_missing_entries, lemma_nothing_missing, lemma_recorded_all_keys,
};
use crate::job::{
    carried, expected_text, field_text, lemma_translated_from_entries,
    lemma_translated_from_fields, translated,
};
use crate::language::{backend_id, language_of};
use crate::sync::{lacking, synchronized};
use vstd::prelude::*;

verus! {

/// A catalog that holds every key of the base lacks nothing, and bringing it
/// up to date leaves it as it is, whatever the backend would have answered.
pub proof fn law_complete_catalog_stays(
    base: Seq<EntryView>,
    catalog: Seq<EntryView>,
    replies: Seq<Seq<char>>,
)
    requires
        forall|k: u32| has_key(base, k) ==> has_key(catalog, k),
    ensures
        lacking(base, catalog) == Seq::<EntryView>::empty(),
        synchronized(base, catalog, replies) == catalog,
{
    lemma_recorded_all_keys(Seq::empty(), catalog);
    assert forall|k: u32| has_key(base, k) implies has_key(indexed(catalog), k) by {}
    lemma_nothing_missing(base, indexed(catalog));
    assert(synchronized(base, catalog, replies) =~= catalog);
}

/// An entry of the base whose key the catalog lacks is in the catalog once it
/// is brought up to date. It stands behind what the catalog held, at the
/// place that it has among the lacking entries: under its key, with its
/// payload as it was, and with each of its two texts as the reply of that
/// text's own request settles it. So a text is as it was where it is empty,
/// where its reply is empty, and where no reply came; otherwise it is the
/// reply. What the catalog held before stands unchanged in front.
pub proof fn law_missing_entry_arrives(
    base: Seq<EntryView>,
    catalog: Seq<EntryView>,
    replies: Seq<Seq<char>>,
    i: int,
)
    requires
        0 <= i < base.len(),
        !has_key(catalog, base[i].key),
    ensures
        synchronized(base, catalog, replies).len() == catalog.len() + lacking(base, catalog).len(),
        exists|m: int|
            0 <= m < lacking(base, catalog).len() && #[trigger] lacking(base, catalog)[m]
                == base[i] && {
                let got = synchronized(base, catalog, replies)[catalog.len() + m];
                &&& got.key == base[i].key
                &&& got.payload == base[i].payload
                &&& got.text2 == expected_text(lacking(base, catalog), 0, false, replies, m, false)
                &&& got.text3 == expected_text(lacking(base, catalog), 0, false, replies, m, true)
                &&& carried(base[i].text2, got.text2, replies)
                &&& carried(base[i].text3, got.text3, replies)
            },
        forall|j: int|
            0 <= j < catalog.len() ==> #[trigger] synchronized(base, catalog, replies)[j]
                == catalog[j],
{
    let missing = lacking(base, catalog);
    let fresh = translated(missing, replies);
    let after = synchronized(base, catalog, replies);
    lemma_recorded_all_keys(Seq::empty(), catalog);
    lemma_missing_entries(base, indexed(catalog));
    lemma_translated_from_entries(missing, 0, false, replies);
    lemma_translated_from_fields(missing, 0, false, replies);
    let m = choose|m: int| 0 <= m < missing.len() && missing[m] == base[i];
    assert(after[catalog.len() + m] == fresh[m]);
    assert(field_text(fresh, m, false) == expected_text(missing, 0, false, replies, m, false));
    assert(field_text(fresh, m, true) == expected_text(missing, 0, false, replies, m, true));
}

/// A second run adds nothing: once a catalog is brought up to date it lacks
/// no entry of the base, so bringing it up to date again leaves it as it is.
pub proof fn law_second_run_adds_nothing(
    base: Seq<EntryView>,
    catalog: Seq<EntryView>,
    replies: Seq<Seq<char>>,
    later: Seq<Seq<char>>,
)
    ensures
        lacking(base, synchronized(base, catalog, replies)) == Seq::<EntryView>::empty(),
        synchronized(base, synchronized(base, catalog, replies), later) == synchronized(
            base,
            catalog,
            replies,
        ),
{
    let missing = lacking(base, catalog);
    let fresh = translated(missing, replies);
    let after = synchronized(base, catalog, replies);
    lemma_recorded_all_keys(Seq::empty(), catalog);
    lemma_missing_entries(base, indexed(catalog));
    lemma_translated_from_entries(missing, 0, false, replies);
    assert forall|k: u32| has_key(base, k) implies has_key(after, k) by {
        let i = choose|i: int| 0 <= i < base.len() && (#[trigger] base[i]).key == k;
        if has_key(catalog, k) {
            let c = choose|c: int| 0 <= c < catalog.len() && (#[trigger] catalog[c]).key == k;
            assert(after[c].key == k);
        } else {
            let m = choose|m: int| 0 <= m < missing.len() && missing[m] == base[i];
            assert(after[catalog.len() + m] == fresh[m]);
            assert(after[catalog.len() + m].key == k);
        }
    }
    law_complete_catalog_stays(base, after, later);
}

/// Every file has its place: a file in the source language is in the base, a
/// file in a language that the backend knows is a target, and any other file
/// is among the skipped. No file is a target for any other reason.
pub proof fn law_every_file_placed(paths: Seq<Seq<char>>, roles: Seq<RoleView>)
    requires
        paths.len() == roles.len(),
    ensures
        partitioned_by(paths, roles).base.len() + partitioned_by(paths, roles).targets.len()
            + partitioned_by(paths, roles).skipped.len() == paths.len(),
        forall|i: int|
            0 <= i < paths.len() ==> match #[trigger] roles[i] {
                RoleView::Base => partitioned_by(paths, roles).base.contains(paths[i]),
                RoleView::Target { language, backend } => partitioned_by(
                    paths,
                    roles,
                ).targets.contains(TargetView { path: paths[i], language, backend }),
                RoleView::Unmapped { language } => partitioned_by(paths, roles).skipped.contains(
                    SkippedView { path: paths[i], language: Some(language) },
                ),
                RoleView::Unresolved => partitioned_by(paths, roles).skipped.contains(
                    SkippedView { path: paths[i], language: None },
                ),
            },
        forall|t: int|
            0 <= t < partitioned_by(paths, roles).targets.len() ==> exists|i: int|
                0 <= i < paths.len() && roles[i] == (RoleView::Target {
                    language: (#[trigger] partitioned_by(paths, roles).targets[t]).language,
                    backend: partitioned_by(paths, roles).targets[t].backend,
                }) && paths[i] == partitioned_by(paths, roles).targets[t].path,
    decreases paths.len(),
{
    if paths.len() > 0 {
        let front_paths = paths.drop_last();
        let front_roles = roles.drop_last();
        let before = partitioned_by(front_paths, front_roles);
        let after = partitioned_by(paths, roles);
        let last = paths.len() - 1;
        law_every_file_placed(front_paths, front_roles);
        assert(after == placed(before, paths[last], roles[last]));
        assert forall|i: int| 0 <= i < paths.len() implies match #[trigger] roles[i] {
            RoleView::Base => after.base.contains(paths[i]),
            RoleView::Target { language, backend } => after.targets.contains(
                TargetView { path: paths[i], language, backend },
            ),
            RoleView::Unmapped { language } => after.skipped.contains(
                SkippedView { path: paths[i], language: Some(language) },
            ),
            RoleView::Unresolved => after.skipped.contains(
                SkippedView { path: paths[i], language: None },
            ),
        } by {
            if i < last {
                assert(front_roles[i] == roles[i] && front_paths[i] == paths[i]);
                match roles[i] {
                    RoleView::Base => {
                        let at = choose|at: int|
                            0 <= at < before.base.len() && before.base[at] == paths[i];
                        assert(after.base[at] == paths[i]);
                    },
                    RoleView::Target { language, backend } => {
                        let want = TargetView { path: paths[i], language, backend };
                        let at = choose|at: int|
                            0 <= at < before.targets.len() && before.targets[at] == want;
                        assert(after.targets[at] == want);
                    },
                    RoleView::Unmapped { language } => {
                        let want = SkippedView { path: paths[i], language: Some(language) };
                        let at = choose|at: int|
                            0 <= at < before.skipped.len() && before.skipped[at] == want;
                        assert(after.skipped[at] == want);
                    },
                    RoleView::Unresolved => {
                        let want = SkippedView { path: paths[i], language: None };
                        let at = choose|at: int|
                            0 <= at < before.skipped.len() && before.skipped[at] == want;
                        assert(after.skipped[at] == want);
                    },
                }
            } else {
                match roles[i] {
                    RoleView::Base => {
                        assert(after.base[after.base.len() - 1] == paths[i]);
                    },
                    RoleView::Target { language, backend } => {
                        assert(after.targets[after.targets.len() - 1] == (TargetView {
                            path: paths[i],
                            language,
                            backend,
                        }));
                    },
                    RoleView::Unmapped { language } => {
                        assert(after.skipped[after.skipped.len() - 1] == (SkippedView {
                            path: paths[i],
                            language: Some(language),
                        }));
                    },
                    RoleView::Unresolved => {
                        assert(after.skipped[after.skipped.len() - 1] == (SkippedView {
                            path: paths[i],
                            language: None,
                        }));
                    },
                }
            }
        }
        assert forall|t: int| 0 <= t < after.targets.len() implies exists|i: int|
            0 <= i < paths.len() && roles[i] == (RoleView::Target {
                language: (#[trigger] after.targets[t]).language,
                backend: after.targets[t].backend,
            }) && paths[i] == after.targets[t].path by {
            if t < before.targets.len() {
                assert(after.targets[t] == before.targets[t]);
                let i = choose|i: int|
                    0 <= i < front_paths.len() && front_roles[i] == (RoleView::Target {
                        language: before.targets[t].language,
                        backend: before.targets[t].backend,
                    }) && front_paths[i] == before.targets[t].path;
                assert(roles[i] == front_roles[i] && paths[i] == front_paths[i]);
            } else {
                assert(roles[last] is Target);
                assert(paths[last] == after.targets[t].path);
            }
        }
    }
}

/// A file in a language that the backend has no identifier for is never a
/// target: it is among the skipped files, with its language, and so no job
/// is started for it and nothing is appended to it. Every target is in a
/// language other than the source, under the identifier that the backend
/// knows it by.
pub proof fn law_unmapped_language_skipped(paths: Seq<Seq<char>>, source: Seq<char>)
    ensures
        forall|i: int|
            #![trigger paths[i]]
            0 <= i < paths.len() && language_of(paths[i]) is Some && language_of(paths[i])
                != Some(source) && backend_id(language_of(paths[i])->0) is None ==> partitioned(
                paths,
                source,
            ).skipped.contains(SkippedView { path: paths[i], language: language_of(paths[i]) }),
        forall|t: int|
            0 <= t < partitioned(paths, source).targets.len() ==> {
                let target = #[trigger] partitioned(paths, source).targets[t];
                &&& language_of(target.path) == Some(target.language)
                &&& target.language != source
                &&& backend_id(target.language) == Some(target.backend)
            },
{
    let roles = roles_of(paths, source);
    let parts = partitioned(paths, source);
    law_every_file_placed(paths, roles);
    assert forall|i: int|
        #![trigger paths[i]]
        0 <= i < paths.len() && language_of(paths[i]) is Some && language_of(paths[i]) != Some(
            source,
        ) && backend_id(language_of(paths[i])->0) is None implies parts.skipped.contains(
        SkippedView { path: paths[i], language: language_of(paths[i]) },
    ) by {
        assert(roles[i] == role_of(language_of(paths[i]), source));
    }
    assert forall|t: int| 0 <= t < parts.targets.len() implies {
        let target = #[trigger] parts.targets[t];
        &&& language_of(target.path) == Some(target.language)
        &&& target.language != source
        &&& backend_id(target.language) == Some(target.backend)
    } by {
        let target = parts.targets[t];
        let i = choose|i: int|
            0 <= i < paths.len() && roles[i] == (RoleView::Target {
                language: target.language,
                backend: target.backend,
            }) && paths[i] == target.path;
        assert(roles[i] == role_of(language_of(paths[i]), source));
    }
}

} // verus!
