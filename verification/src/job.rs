//! The translation job of one target catalog: which text goes to the
//! translation backend next, and what becomes of the answer.
//!
//! The job makes no call itself. Its owner asks it for the pending request,
//! has the backend translate the text, and hands the reply back; the job then
//! moves on to the next text. So the job holds every decision, and the owner
//! holds the network.

use crate::entry::{views, Entry, EntryView};
use crate::language::text_of;
use vstd::prelude::*;

verus! {

/// What a request is, as a value of mathematics.
pub struct RequestView {
    pub text: Seq<char>,
    pub source: Option<Seq<char>>,
    pub target: Seq<char>,
}

/// One call of the translation backend: the text, the backend's identifier
/// of the language it is in (none where the backend is to find out), and that
/// of the language it is wanted in.
#[derive(Debug, PartialEq, Eq)]
pub struct TranslationRequest {
    pub text: String,
    pub source: Option<String>,
    pub target: String,
}

impl View for TranslationRequest {
    type V = RequestView;

    open spec fn view(&self) -> RequestView {
        RequestView { text: self.text@, source: text_of(self.source), target: self.target@ }
    }
}

/// The model of an optional request.
pub open spec fn request_of(request: Option<TranslationRequest>) -> Option<RequestView> {
    match request {
        Some(r) => Some(r@),
        None => None,
    }
}

/// The text that stands in a field once the backend has answered `reply` for
/// `original`: the reply, unless it is empty. An empty reply means "not
/// translated", and the original text stays.
pub open spec fn settled_text(original: Seq<char>, reply: Seq<char>) -> Seq<char> {
    if reply.len() == 0 {
        original
    } else {
        reply
    }
}

/// The text of one of the two translatable fields of entry `cursor`: the
/// second field if `second`, the first otherwise.
pub open spec fn field_text(entries: Seq<EntryView>, cursor: int, second: bool) -> Seq<char> {
    if second {
        entries[cursor].text3
    } else {
        entries[cursor].text2
    }
}

/// `entries` with `text` in that field of entry `cursor`, and nothing else
/// changed.
pub open spec fn with_field(
    entries: Seq<EntryView>,
    cursor: int,
    second: bool,
    text: Seq<char>,
) -> Seq<EntryView> {
    if second {
        entries.update(cursor, EntryView { text3: text, ..entries[cursor] })
    } else {
        entries.update(cursor, EntryView { text2: text, ..entries[cursor] })
    }
}

/// The field that follows field (`cursor`, `second`): entry by entry, the
/// first field before the second.
pub open spec fn following(cursor: int, second: bool) -> (int, bool) {
    if second {
        (cursor + 1, false)
    } else {
        (cursor, true)
    }
}

/// The first field at or after (`cursor`, `second`) that holds text, or the
/// end of `entries` where none does. Empty fields are never sent out.
pub open spec fn settle(entries: Seq<EntryView>, cursor: int, second: bool) -> (int, bool)
    decreases entries.len() - cursor, (if second { 0int } else { 1int }),
{
    if cursor < 0 || cursor >= entries.len() {
        (entries.len() as int, false)
    } else if field_text(entries, cursor, second).len() > 0 {
        (cursor, second)
    } else {
        settle(entries, following(cursor, second).0, following(cursor, second).1)
    }
}

/// What `entries` become when the fields from (`cursor`, `second`) on are
/// translated in order, the k-th field that holds text getting the k-th
/// reply. Fields without text stay empty, and where the replies run out the
/// remaining fields stay as they are.
pub open spec fn translated_from(
    entries: Seq<EntryView>,
    cursor: int,
    second: bool,
    replies: Seq<Seq<char>>,
) -> Seq<EntryView>
    decreases entries.len() - cursor, (if second { 0int } else { 1int }),
{
    let text = field_text(entries, cursor, second);
    let next = following(cursor, second);
    if cursor < 0 || cursor >= entries.len() {
        entries
    } else if text.len() == 0 {
        translated_from(entries, next.0, next.1, replies)
    } else if replies.len() == 0 {
        entries
    } else {
        translated_from(
            with_field(entries, cursor, second, settled_text(text, replies[0])),
            next.0,
            next.1,
            replies.drop_first(),
        )
    }
}

/// The translation of `entries` under `replies`: every field that holds text
/// is translated, entry by entry, the first field before the second.
pub open spec fn translated(entries: Seq<EntryView>, replies: Seq<Seq<char>>) -> Seq<EntryView> {
    translated_from(entries, 0, false, replies)
}

/// The number of fields from (`cursor`, `second`) on that hold text: the
/// requests that are still to be made.
pub open spec fn requests_from(entries: Seq<EntryView>, cursor: int, second: bool) -> nat
    decreases entries.len() - cursor, (if second { 0int } else { 1int }),
{
    let next = following(cursor, second);
    if cursor < 0 || cursor >= entries.len() {
        0
    } else if field_text(entries, cursor, second).len() == 0 {
        requests_from(entries, next.0, next.1)
    } else {
        1 + requests_from(entries, next.0, next.1)
    }
}

/// A job, as a value of mathematics: the entries as they stand, and the field
/// that the job has come to.
pub struct JobView {
    pub source: Option<Seq<char>>,
    pub target: Seq<char>,
    pub entries: Seq<EntryView>,
    pub cursor: int,
    pub second: bool,
}

impl JobView {
    /// The job at its start: nothing is translated yet, and the job stands
    /// at the first field that holds text.
    pub open spec fn started(
        entries: Seq<EntryView>,
        source: Option<Seq<char>>,
        target: Seq<char>,
    ) -> JobView {
        let at = settle(entries, 0, false);
        JobView { source, target, entries, cursor: at.0, second: at.1 }
    }

    /// The job stands at a field that holds text, or at the end.
    pub open spec fn settled(self) -> bool {
        &&& 0 <= self.cursor <= self.entries.len()
        &&& settle(self.entries, self.cursor, self.second) == (self.cursor, self.second)
    }

    /// Nothing is left to translate.
    pub open spec fn finished(self) -> bool {
        self.cursor >= self.entries.len()
    }

    /// The request that the job waits for an answer to, if it is not
    /// finished.
    pub open spec fn pending(self) -> Option<RequestView> {
        if self.finished() {
            None
        } else {
            Some(
                RequestView {
                    text: field_text(self.entries, self.cursor, self.second),
                    source: self.source,
                    target: self.target,
                },
            )
        }
    }

    /// The job after the backend has answered `reply` to the pending
    /// request: the reply stands in the field, unless it is empty, and the
    /// job stands at the next field that holds text. A finished job stays
    /// as it is.
    pub open spec fn resolved(self, reply: Seq<char>) -> JobView {
        if self.finished() {
            self
        } else {
            let text = settled_text(field_text(self.entries, self.cursor, self.second), reply);
            let entries = with_field(self.entries, self.cursor, self.second, text);
            let next = following(self.cursor, self.second);
            let at = settle(entries, next.0, next.1);
            JobView { entries, cursor: at.0, second: at.1, ..self }
        }
    }

    /// The number of requests that the job has still to make.
    pub open spec fn outstanding(self) -> nat {
        requests_from(self.entries, self.cursor, self.second)
    }

    /// The job after the replies of `replies` have come in, one after the
    /// other. Replies that come after the job has finished change nothing.
    pub open spec fn run(self, replies: Seq<Seq<char>>) -> JobView
        decreases replies.len(),
    {
        if replies.len() == 0 {
            self
        } else {
            self.resolved(replies[0]).run(replies.drop_first())
        }
    }
}

/// `settle` stays within the entries, never goes back, and lands on a field
/// from which it moves no further.
pub proof fn lemma_settle(entries: Seq<EntryView>, cursor: int, second: bool)
    requires
        0 <= cursor <= entries.len(),
    ensures
        cursor <= settle(entries, cursor, second).0 <= entries.len(),
        settle(entries, settle(entries, cursor, second).0, settle(entries, cursor, second).1)
            == settle(entries, cursor, second),
        settle(entries, cursor, second).0 < entries.len() ==> field_text(
            entries,
            settle(entries, cursor, second).0,
            settle(entries, cursor, second).1,
        ).len() > 0,
    decreases entries.len() - cursor, (if second { 0int } else { 1int }),
{
    if cursor < entries.len() && field_text(entries, cursor, second).len() == 0 {
        let next = following(cursor, second);
        lemma_settle(entries, next.0, next.1);
    }
}

/// The translation job of one target catalog.
///
/// It holds the entries that the target lacks, and translates them field by
/// field, in the order of the entries, the first translatable field of an
/// entry before the second. A field without text is passed over.
pub struct TranslationJob {
    source: Option<String>,
    target: String,
    entries: Vec<Entry>,
    cursor: usize,
    second: bool,
}

impl View for TranslationJob {
    type V = JobView;

    closed spec fn view(&self) -> JobView {
        JobView {
            source: text_of(self.source),
            target: self.target@,
            entries: views(self.entries@),
            cursor: self.cursor as int,
            second: self.second,
        }
    }
}

impl TranslationJob {
    /// The job's invariant: it stands at a field that holds text, or at the
    /// end of its entries.
    pub open spec fn wf(&self) -> bool {
        self@.settled()
    }

    fn field_is_empty(&self) -> (empty: bool)
        requires
            self.cursor < self.entries@.len(),
        ensures
            empty == (field_text(self@.entries, self@.cursor, self@.second).len() == 0),
    {
        let entry = &self.entries[self.cursor];
        if self.second {
            entry.text3.as_str().is_empty()
        } else {
            entry.text2.as_str().is_empty()
        }
    }

    fn settle_here(&mut self)
        requires
            old(self).cursor <= old(self).entries@.len(),
        ensures
            final(self)@.settled(),
            final(self)@ == (JobView {
                cursor: settle(old(self)@.entries, old(self)@.cursor, old(self)@.second).0,
                second: settle(old(self)@.entries, old(self)@.cursor, old(self)@.second).1,
                ..old(self)@
            }),
    {
        let ghost before = self@;
        proof {
            lemma_settle(before.entries, before.cursor, before.second);
        }
        while self.cursor < self.entries.len() && self.field_is_empty()
            invariant
                self.cursor <= self.entries@.len(),
                self@.entries == before.entries,
                self@.source == before.source,
                self@.target == before.target,
                settle(self@.entries, self@.cursor, self@.second) == settle(
                    before.entries,
                    before.cursor,
                    before.second,
                ),
            decreases 2 * (self.entries@.len() - self.cursor) + (if self.second { 0int } else { 1int }),
        {
            if self.second {
                self.cursor += 1;
                self.second = false;
            } else {
                self.second = true;
            }
        }
        if self.cursor >= self.entries.len() {
            self.second = false;
        }
    }

    /// A job that translates the texts of `entries` from the language that
    /// the backend knows as `source` into the one it knows as `target`.
    pub fn new(entries: Vec<Entry>, source: Option<String>, target: String) -> (job:
        TranslationJob)
        ensures
            job.wf(),
            job@ == JobView::started(views(entries@), text_of(source), target@),
    {
        let mut job = TranslationJob { source, target, entries, cursor: 0, second: false };
        job.settle_here();
        job
    }

    /// Tells whether every text of the job has had its reply.
    pub fn is_finished(&self) -> (finished: bool)
        ensures
            finished == self@.finished(),
    {
        self.cursor >= self.entries.len()
    }

    /// The request that is to be sent to the backend next: the text of the
    /// field that the job stands at. A finished job has none.
    pub fn pending(&self) -> (request: Option<TranslationRequest>)
        ensures
            request_of(request) == self@.pending(),
            self.wf() ==> (request matches Some(r) ==> r.text@.len() > 0),
    {
        if self.cursor >= self.entries.len() {
            None
        } else {
            proof {
                if self.wf() {
                    lemma_settle(self@.entries, self@.cursor, self@.second);
                }
            }
            let entry = &self.entries[self.cursor];
            let text = if self.second {
                entry.text3.clone()
            } else {
                entry.text2.clone()
            };
            let source = match &self.source {
                Some(id) => Some(id.clone()),
                None => None,
            };
            Some(TranslationRequest { text, source, target: self.target.clone() })
        }
    }

    /// Takes the backend's reply to the pending request. A reply with text
    /// takes the place of the field's text; an empty reply leaves the field
    /// as it is. The job then stands at the next field that holds text. A
    /// finished job takes no reply: it stays as it is.
    pub fn resolve(&mut self, reply: String)
        requires
            old(self).wf(),
        ensures
            final(self).wf(),
            final(self)@ == old(self)@.resolved(reply@),
    {
        if self.cursor < self.entries.len() {
            let ghost before = self@;
            let ghost text = settled_text(
                field_text(before.entries, before.cursor, before.second),
                reply@,
            );
            if !reply.as_str().is_empty() {
                if self.second {
                    self.entries[self.cursor].text3 = reply;
                } else {
                    self.entries[self.cursor].text2 = reply;
                }
            }
            assert(self@.entries =~= with_field(
                before.entries,
                before.cursor,
                before.second,
                text,
            ));
            if self.second {
                self.cursor += 1;
                self.second = false;
            } else {
                self.second = true;
            }
            self.settle_here();
        }
    }

    /// Settles the pending request without a translation, as when the
    /// backend has failed: the field keeps its text, and the job moves on.
    pub fn keep_original(&mut self)
        requires
            old(self).wf(),
        ensures
            final(self).wf(),
            final(self)@ == old(self)@.resolved(Seq::<char>::empty()),
    {
        self.resolve(String::new());
    }

    /// The entries as the job has left them.
    pub fn into_entries(self) -> (entries: Vec<Entry>)
        ensures
            views(entries@) == self@.entries,
    {
        self.entries
    }
}

/// Passing over fields without text changes nothing in what the translation
/// gives.
pub proof fn lemma_translated_from_settled(
    entries: Seq<EntryView>,
    cursor: int,
    second: bool,
    replies: Seq<Seq<char>>,
)
    requires
        0 <= cursor <= entries.len(),
    ensures
        translated_from(entries, cursor, second, replies) == translated_from(
            entries,
            settle(entries, cursor, second).0,
            settle(entries, cursor, second).1,
            replies,
        ),
    decreases entries.len() - cursor, (if second { 0int } else { 1int }),
{
    if cursor < entries.len() && field_text(entries, cursor, second).len() == 0 {
        let next = following(cursor, second);
        lemma_translated_from_settled(entries, next.0, next.1, replies);
    }
}

/// Reply by reply, the job does what `translated_from` says in one piece:
/// after any run of replies its entries are the translation, from the field
/// it stood at, of the entries it had.
pub proof fn lemma_run_translates(job: JobView, replies: Seq<Seq<char>>)
    requires
        job.settled(),
    ensures
        job.run(replies).settled(),
        job.run(replies).source == job.source,
        job.run(replies).target == job.target,
        job.run(replies).entries == translated_from(
            job.entries,
            job.cursor,
            job.second,
            replies,
        ),
    decreases replies.len(),
{
    lemma_settle(job.entries, job.cursor, job.second);
    if replies.len() > 0 {
        let next_job = job.resolved(replies[0]);
        if !job.finished() {
            let next = following(job.cursor, job.second);
            lemma_settle(next_job.entries, next.0, next.1);
            lemma_translated_from_settled(next_job.entries, next.0, next.1, replies.drop_first());
        }
        lemma_run_translates(next_job, replies.drop_first());
    }
}

/// A reply to the pending request leaves one request fewer to make.
pub proof fn lemma_resolved_outstanding(job: JobView, reply: Seq<char>)
    requires
        job.settled(),
        !job.finished(),
    ensures
        job.resolved(reply).outstanding() + 1 == job.outstanding(),
{
    let text = settled_text(field_text(job.entries, job.cursor, job.second), reply);
    let entries = with_field(job.entries, job.cursor, job.second, text);
    let next = following(job.cursor, job.second);
    lemma_settle(job.entries, job.cursor, job.second);
    lemma_requests_from_settled(entries, next.0, next.1);
    lemma_requests_from_with_field(job.entries, job.cursor, job.second, text, next.0, next.1);
}

/// Passing over fields without text leaves the number of requests as it is.
pub proof fn lemma_requests_from_settled(entries: Seq<EntryView>, cursor: int, second: bool)
    requires
        0 <= cursor,
    ensures
        requests_from(entries, cursor, second) == requests_from(
            entries,
            settle(entries, cursor, second).0,
            settle(entries, cursor, second).1,
        ),
        (settle(entries, cursor, second).0 >= entries.len()) == (requests_from(
            entries,
            cursor,
            second,
        ) == 0),
    decreases entries.len() - cursor, (if second { 0int } else { 1int }),
{
    if cursor < entries.len() && field_text(entries, cursor, second).len() == 0 {
        let next = following(cursor, second);
        lemma_requests_from_settled(entries, next.0, next.1);
    }
}

/// A change to a field does not touch the requests that the fields after it
/// give rise to.
pub proof fn lemma_requests_from_with_field(
    entries: Seq<EntryView>,
    at: int,
    at_second: bool,
    text: Seq<char>,
    cursor: int,
    second: bool,
)
    requires
        0 <= at < entries.len(),
        at < cursor || (at == cursor && !at_second && second),
    ensures
        requests_from(with_field(entries, at, at_second, text), cursor, second) == requests_from(
            entries,
            cursor,
            second,
        ),
    decreases entries.len() - cursor, (if second { 0int } else { 1int }),
{
    if cursor < entries.len() {
        let next = following(cursor, second);
        lemma_requests_from_with_field(entries, at, at_second, text, next.0, next.1);
    }
}

/// How a field's text can come out of a translation: as it went in, or, if
/// it held text, as one of the replies that hold text. A field without text
/// stays without, and no field loses its text.
pub open spec fn carried(original: Seq<char>, result: Seq<char>, replies: Seq<Seq<char>>) -> bool {
    result == original || (original.len() > 0 && result.len() > 0 && replies.contains(result))
}

/// The translation touches the two texts only. It keeps the number and the
/// order of the entries, and each entry's key and payload; every text comes
/// out as `carried` says; and the fields before the one it starts at stay as
/// they are.
pub proof fn lemma_translated_from_entries(
    entries: Seq<EntryView>,
    cursor: int,
    second: bool,
    replies: Seq<Seq<char>>,
)
    requires
        0 <= cursor <= entries.len(),
    ensures
        translated_from(entries, cursor, second, replies).len() == entries.len(),
        forall|i: int|
            #![trigger translated_from(entries, cursor, second, replies)[i]]
            0 <= i < entries.len() ==> {
                let out = translated_from(entries, cursor, second, replies)[i];
                &&& out.key == entries[i].key
                &&& out.payload == entries[i].payload
                &&& carried(entries[i].text2, out.text2, replies)
                &&& carried(entries[i].text3, out.text3, replies)
            },
        forall|i: int|
            #![trigger translated_from(entries, cursor, second, replies)[i]]
            0 <= i < cursor ==> translated_from(entries, cursor, second, replies)[i] == entries[i],
        second && cursor < entries.len() ==> translated_from(
            entries,
            cursor,
            second,
            replies,
        )[cursor].text2 == entries[cursor].text2,
    decreases entries.len() - cursor, (if second { 0int } else { 1int }),
{
    if cursor < entries.len() {
        let text = field_text(entries, cursor, second);
        let next = following(cursor, second);
        if text.len() == 0 {
            lemma_translated_from_entries(entries, next.0, next.1, replies);
        } else if replies.len() > 0 {
            let rest = replies.drop_first();
            let changed = with_field(entries, cursor, second, settled_text(text, replies[0]));
            lemma_translated_from_entries(changed, next.0, next.1, rest);
            let out = translated_from(entries, cursor, second, replies);
            assert(out == translated_from(changed, next.0, next.1, rest));
            assert(replies.contains(replies[0]));
            assert forall|i: int| 0 <= i < entries.len() implies {
                &&& (#[trigger] out[i]).key == entries[i].key
                &&& out[i].payload == entries[i].payload
                &&& carried(entries[i].text2, out[i].text2, replies)
                &&& carried(entries[i].text3, out[i].text3, replies)
            } by {
                assert(carried(changed[i].text2, out[i].text2, rest));
                assert(carried(changed[i].text3, out[i].text3, rest));
                if rest.contains(out[i].text2) {
                    let k = choose|k: int| 0 <= k < rest.len() && rest[k] == out[i].text2;
                    assert(replies[k + 1] == out[i].text2);
                }
                if rest.contains(out[i].text3) {
                    let k = choose|k: int| 0 <= k < rest.len() && rest[k] == out[i].text3;
                    assert(replies[k + 1] == out[i].text3);
                }
            }
        }
    }
}

/// Whether field (`cursor`, `second`) comes before field (`i`, `f`) in the
/// order of the requests, or is that field.
pub open spec fn reaches(cursor: int, second: bool, i: int, f: bool) -> bool {
    cursor < i || (cursor == i && (!second || f))
}

/// The number of requests that are made from field (`cursor`, `second`) on
/// before field (`i`, `f`) has its turn.
pub open spec fn asked_before(
    entries: Seq<EntryView>,
    cursor: int,
    second: bool,
    i: int,
    f: bool,
) -> int {
    requests_from(entries, cursor, second) - requests_from(entries, i, f)
}

/// What field (`i`, `f`) holds after the fields from (`cursor`, `second`) on
/// are translated under `replies`: a field with text holds what the reply of
/// its own request settles, where there is such a reply; any other field
/// holds what it held.
pub open spec fn expected_text(
    entries: Seq<EntryView>,
    cursor: int,
    second: bool,
    replies: Seq<Seq<char>>,
    i: int,
    f: bool,
) -> Seq<char> {
    let text = field_text(entries, i, f);
    let k = asked_before(entries, cursor, second, i, f);
    if text.len() > 0 && 0 <= k < replies.len() {
        settled_text(text, replies[k])
    } else {
        text
    }
}

/// From a later field on, no more requests are left than from an earlier
/// one.
pub proof fn lemma_requests_from_later(
    entries: Seq<EntryView>,
    cursor: int,
    second: bool,
    i: int,
    f: bool,
)
    requires
        0 <= cursor,
        reaches(cursor, second, i, f),
    ensures
        requests_from(entries, i, f) <= requests_from(entries, cursor, second),
    decreases entries.len() - cursor, (if second { 0int } else { 1int }),
{
    if cursor < entries.len() && !(cursor == i && second == f) {
        let next = following(cursor, second);
        lemma_requests_from_later(entries, next.0, next.1, i, f);
    }
}

/// Each field gets the reply of its own request: the translation leaves in
/// every field from the starting field on exactly what `expected_text` says.
pub proof fn lemma_translated_from_fields(
    entries: Seq<EntryView>,
    cursor: int,
    second: bool,
    replies: Seq<Seq<char>>,
)
    requires
        0 <= cursor <= entries.len(),
    ensures
        forall|i: int, f: bool|
            #![trigger field_text(translated_from(entries, cursor, second, replies), i, f)]
            0 <= i < entries.len() && reaches(cursor, second, i, f) ==> field_text(
                translated_from(entries, cursor, second, replies),
                i,
                f,
            ) == expected_text(entries, cursor, second, replies, i, f),
    decreases entries.len() - cursor, (if second { 0int } else { 1int }),
{
    if cursor < entries.len() {
        let out = translated_from(entries, cursor, second, replies);
        let text = field_text(entries, cursor, second);
        let next = following(cursor, second);
        if text.len() == 0 {
            lemma_translated_from_fields(entries, next.0, next.1, replies);
            lemma_translated_from_entries(entries, next.0, next.1, replies);
            assert forall|i: int, f: bool|
                0 <= i < entries.len() && reaches(cursor, second, i, f) implies
                #[trigger] field_text(out, i, f)
                == expected_text(entries, cursor, second, replies, i, f) by {
                if i != cursor || f != second {
                    assert(reaches(next.0, next.1, i, f));
                    assert(field_text(translated_from(entries, next.0, next.1, replies), i, f)
                        == expected_text(entries, next.0, next.1, replies, i, f));
                }
            }
        } else if replies.len() > 0 {
            let rest = replies.drop_first();
            let changed = with_field(entries, cursor, second, settled_text(text, replies[0]));
            lemma_translated_from_fields(changed, next.0, next.1, rest);
            lemma_translated_from_entries(changed, next.0, next.1, rest);
            lemma_requests_from_with_field(
                entries,
                cursor,
                second,
                settled_text(text, replies[0]),
                next.0,
                next.1,
            );
            assert forall|i: int, f: bool|
                0 <= i < entries.len() && reaches(cursor, second, i, f) implies
                #[trigger] field_text(out, i, f)
                == expected_text(entries, cursor, second, replies, i, f) by {
                if i != cursor || f != second {
                    assert(reaches(next.0, next.1, i, f));
                    lemma_requests_from_with_field(
                        entries,
                        cursor,
                        second,
                        settled_text(text, replies[0]),
                        i,
                        f,
                    );
                    lemma_requests_from_later(entries, next.0, next.1, i, f);
                    assert(field_text(changed, i, f) == field_text(entries, i, f));
                    assert(field_text(translated_from(changed, next.0, next.1, rest), i, f)
                        == expected_text(changed, next.0, next.1, rest, i, f));
                    let k = asked_before(changed, next.0, next.1, i, f);
                    assert(asked_before(entries, cursor, second, i, f) == k + 1);
                    if 0 <= k < rest.len() {
                        assert(rest[k] == replies[k + 1]);
                    }
                }
            }
        } else {
            assert forall|i: int, f: bool|
                0 <= i < entries.len() && reaches(cursor, second, i, f) implies
                #[trigger] field_text(out, i, f)
                == expected_text(entries, cursor, second, replies, i, f) by {}
        }
    }
}

/// The job comes to its end: once it has had as many replies as it had
/// requests to make, it is finished, and further replies change nothing.
pub proof fn lemma_run_finishes(job: JobView, replies: Seq<Seq<char>>)
    requires
        job.settled(),
        replies.len() >= job.outstanding(),
    ensures
        job.run(replies).finished(),
    decreases replies.len(),
{
    lemma_requests_from_settled(job.entries, job.cursor, job.second);
    if replies.len() > 0 {
        let next_job = job.resolved(replies[0]);
        if !job.finished() {
            let next = following(job.cursor, job.second);
            lemma_settle(next_job.entries, next.0, next.1);
            lemma_resolved_outstanding(job, replies[0]);
        }
        lemma_run_finishes(next_job, replies.drop_first());
    }
}

} // verus!
