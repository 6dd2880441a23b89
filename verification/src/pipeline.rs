//! The run over an archive: every entry that is a file is scanned, and each
//! plate found in it is filed in the store.

use vstd::prelude::*;
use crate::archive::{
    archive_of, entries, entry_count, entry_is_dir, entry_name, entry_size,
    failure_text, is_dir_name, open_archive, open_entry, FileView,
};
use crate::record::{current_time, Record, RecordView};
use crate::scanner::{
    complete, emission, emitted, initial_state, is_terminal, next_state, state_after, ParseState,
    ParseStateView, Token, TokenView,
};
use crate::store::RecordStore;
use crate::xml::{next_token, open_reader, pending};

verus! {

/// Why an entry was given up. What was filed from it before stays filed.
#[derive(Debug, PartialEq, Eq)]
pub enum EntryError {
    /// The entry at `index` cannot be decoded: it does not open, and then
    /// `name` is empty, or its bytes cannot be read to their end.
    Decode { index: usize, name: String, reason: String },
    /// The markup of the entry `entry_name` is broken at byte `position`.
    Parse { entry_name: String, position: u64, reason: String },
}

/// An [`EntryError`] as a mathematical value. The reason is a diagnostic and
/// is left out.
pub ghost enum EntryErrorView {
    Decode { index: nat, name: Seq<char> },
    Parse { entry_name: Seq<char>, position: u64 },
}

impl View for EntryError {
    type V = EntryErrorView;

    open spec fn view(&self) -> EntryErrorView {
        match *self {
            EntryError::Decode { index, name, .. } => EntryErrorView::Decode {
                index: index as nat,
                name: name@,
            },
            EntryError::Parse { entry_name, position, .. } => EntryErrorView::Parse {
                entry_name: entry_name@,
                position,
            },
        }
    }
}

/// What a run has to tell while it goes on.
#[derive(Debug, PartialEq, Eq)]
pub enum Notice {
    /// The scan of a file entry begins.
    EntryStarted { name: String, size: u64 },
    /// So many plates have been filed in this run: a multiple of a thousand.
    Milestone { processed: u128 },
    /// An entry was given up; the run goes on with the next.
    Warning(EntryError),
}

/// A [`Notice`] as a mathematical value.
pub ghost enum NoticeView {
    EntryStarted { name: Seq<char>, size: u64 },
    Milestone { processed: nat },
    Warning(EntryErrorView),
}

impl View for Notice {
    type V = NoticeView;

    open spec fn view(&self) -> NoticeView {
        match *self {
            Notice::EntryStarted { name, size } => NoticeView::EntryStarted { name: name@, size },
            Notice::Milestone { processed } => NoticeView::Milestone { processed: processed as nat },
            Notice::Warning(error) => NoticeView::Warning(error@),
        }
    }
}

/// The reason that a warning gives; of another notice the empty text.
pub open spec fn reason_of(notice: Notice) -> Seq<char> {
    match notice {
        Notice::Warning(EntryError::Decode { reason, .. }) => reason@,
        Notice::Warning(EntryError::Parse { reason, .. }) => reason@,
        _ => Seq::empty(),
    }
}

/// The reason that the end of a document gives for being an error; of
/// another token the empty text.
pub open spec fn failure_of(token: Token) -> Seq<char> {
    match token {
        Token::Malformed { reason, .. } => reason@,
        Token::Unreadable { reason } => reason@,
        _ => Seq::empty(),
    }
}

/// The notices in `notices` as mathematical values.
pub open spec fn notice_views(notices: Seq<Notice>) -> Seq<NoticeView> {
    notices.map_values(|n: Notice| n@)
}

/// What a run did.
#[derive(Debug)]
pub struct RunReport {
    /// How many plates were filed, one that was filed again counted again.
    pub processed: u128,
    /// What the run had to tell, in order.
    pub notices: Vec<Notice>,
}

/// The bytes hold no archive that can be read.
#[derive(Debug)]
pub struct ArchiveFormatError {
    /// What the archive reader said.
    pub reason: String,
}

/// How many plates are filed between two milestones.
pub open spec fn milestone_step() -> nat {
    1000
}

/// The milestone that the `count`-th plate of a run passes, if it passes
/// one: every thousandth does.
pub open spec fn milestone_at(count: nat) -> Seq<NoticeView> {
    if count % milestone_step() == 0 {
        seq![NoticeView::Milestone { processed: count }]
    } else {
        Seq::empty()
    }
}

/// The milestones passed while `count` plates are filed after `before`
/// others.
pub open spec fn milestones(before: nat, count: nat) -> Seq<NoticeView>
    decreases count,
{
    if count == 0 {
        Seq::empty()
    } else {
        milestones(before, (count - 1) as nat) + milestone_at(before + count)
    }
}

/// The warning that the end of a document calls for: none where it simply
/// ends.
pub open spec fn end_warning(index: nat, name: Seq<char>, end: TokenView) -> Seq<NoticeView> {
    match end {
        TokenView::Malformed { position } => seq![
            NoticeView::Warning(EntryErrorView::Parse { entry_name: name, position }),
        ],
        TokenView::Unreadable => seq![NoticeView::Warning(EntryErrorView::Decode { index, name })],
        _ => Seq::empty(),
    }
}

/// Whether a store that held `before` holds `after` once the plates `ids`
/// were filed in it: the plates on file are those that were and those of
/// `ids`, each of these under its own text, and the records of the others
/// are as they were.
pub open spec fn absorbs(
    before: Map<Seq<char>, RecordView>,
    after: Map<Seq<char>, RecordView>,
    ids: Seq<Seq<char>>,
) -> bool {
    &&& forall|k: Seq<char>|
        #![trigger after.contains_key(k)]
        #![trigger before.contains_key(k)]
        #![trigger ids.contains(k)]
        after.contains_key(k) <==> (before.contains_key(k) || ids.contains(k))
    &&& forall|k: Seq<char>|
        before.contains_key(k) && !ids.contains(k) ==> #[trigger] after[k] == before[k]
    &&& forall|k: Seq<char>| ids.contains(k) ==> (#[trigger] after[k]).identifier == k
}

/// The plates that an entry yields: those of its document where it is a
/// file, none where it is a directory or does not open.
pub open spec fn slot_ids(slot: Option<FileView>) -> Seq<Seq<char>> {
    match slot {
        Some(file) => if is_dir_name(file.name) {
            Seq::empty()
        } else {
            emitted(initial_state(), file.tokens)
        },
        None => Seq::empty(),
    }
}

/// What the entry at `index` gives to tell, `before` plates having been
/// filed in the run so far.
pub open spec fn slot_notices(index: nat, slot: Option<FileView>, before: nat) -> Seq<NoticeView> {
    match slot {
        Some(file) => if is_dir_name(file.name) {
            Seq::empty()
        } else {
            seq![NoticeView::EntryStarted { name: file.name, size: file.size }] + milestones(
                before,
                slot_ids(slot).len(),
            ) + end_warning(index, file.name, file.tokens.last())
        },
        None => seq![
            NoticeView::Warning(EntryErrorView::Decode { index, name: Seq::empty() }),
        ],
    }
}

/// The plates that the entries `slots` yield, in order.
pub open spec fn archive_ids(slots: Seq<Option<FileView>>) -> Seq<Seq<char>>
    decreases slots.len(),
{
    if slots.len() == 0 {
        Seq::empty()
    } else {
        archive_ids(slots.drop_last()) + slot_ids(slots.last())
    }
}

/// What a run over the entries `slots` gives to tell, in order.
pub open spec fn archive_notices(slots: Seq<Option<FileView>>) -> Seq<NoticeView>
    decreases slots.len(),
{
    if slots.len() == 0 {
        Seq::empty()
    } else {
        let earlier = slots.drop_last();
        archive_notices(earlier) + slot_notices(
            earlier.len(),
            slots.last(),
            archive_ids(earlier).len(),
        )
    }
}

/// Filing nothing leaves a store as it is.
pub proof fn lemma_absorbs_nothing(store: Map<Seq<char>, RecordView>)
    ensures
        absorbs(store, store, Seq::empty()),
{
}

/// Filing one more plate, under its own text, after `ids`.
pub proof fn lemma_absorbs_one_more(
    before: Map<Seq<char>, RecordView>,
    after: Map<Seq<char>, RecordView>,
    ids: Seq<Seq<char>>,
    record: RecordView,
)
    requires
        absorbs(before, after, ids),
    ensures
        absorbs(before, after.insert(record.identifier, record), ids.push(record.identifier)),
{
    let id = record.identifier;
    let longer = ids.push(id);
    let last = after.insert(id, record);
    assert(longer[ids.len() as int] == id);
    assert forall|k: Seq<char>| longer.contains(k) <==> (ids.contains(k) || k == id) by {
        if ids.contains(k) {
            let i = choose|i: int| 0 <= i < ids.len() && ids[i] == k;
            assert(longer[i] == k);
        }
        if longer.contains(k) {
            let i = choose|i: int| 0 <= i < longer.len() && longer[i] == k;
            if i < ids.len() {
                assert(ids[i] == k);
            }
        }
    }
    assert forall|k: Seq<char>| longer.contains(k) implies (#[trigger] last[k]).identifier
        == k by {
        if k != id {
            assert(ids.contains(k));
            assert(after[k].identifier == k);
        }
    }
    assert forall|k: Seq<char>| last.contains_key(k) <==> (before.contains_key(k)
        || longer.contains(k)) by {
        assert(after.contains_key(k) <==> (before.contains_key(k) || ids.contains(k)));
    }
    assert forall|k: Seq<char>| before.contains_key(k) && !longer.contains(k) implies #[trigger] last[k]
        == before[k] by {
        assert(after[k] == before[k]);
    }
}

/// Filing `first` and then `second` is filing the two in a row.
pub proof fn lemma_absorbs_in_turn(
    before: Map<Seq<char>, RecordView>,
    between: Map<Seq<char>, RecordView>,
    after: Map<Seq<char>, RecordView>,
    first: Seq<Seq<char>>,
    second: Seq<Seq<char>>,
)
    requires
        absorbs(before, between, first),
        absorbs(between, after, second),
    ensures
        absorbs(before, after, first + second),
{
    let both = first + second;
    assert forall|k: Seq<char>| both.contains(k) <==> (first.contains(k) || second.contains(
        k,
    )) by {
        if first.contains(k) {
            let i = choose|i: int| 0 <= i < first.len() && first[i] == k;
            assert(both[i] == k);
        }
        if second.contains(k) {
            let i = choose|i: int| 0 <= i < second.len() && second[i] == k;
            assert(both[first.len() + i] == k);
        }
        if both.contains(k) {
            let i = choose|i: int| 0 <= i < both.len() && both[i] == k;
            if i < first.len() {
                assert(first[i] == k);
            } else {
                assert(second[i - first.len()] == k);
            }
        }
    }
    assert forall|k: Seq<char>| both.contains(k) implies (#[trigger] after[k]).identifier
        == k by {
        if !second.contains(k) {
            assert(between.contains_key(k));
            assert(after[k] == between[k]);
        }
    }
    assert forall|k: Seq<char>| before.contains_key(k) && !both.contains(k) implies #[trigger] after[k]
        == before[k] by {
        assert(between[k] == before[k]);
        assert(between.contains_key(k));
    }
    assert forall|k: Seq<char>| after.contains_key(k) <==> (before.contains_key(k)
        || both.contains(k)) by {
        assert(after.contains_key(k) <==> (between.contains_key(k) || second.contains(k)));
        assert(between.contains_key(k) <==> (before.contains_key(k) || first.contains(k)));
    }
}

/// The plates that one token yields in state `s`: one or none.
pub open spec fn found_at(s: ParseStateView, t: TokenView) -> Seq<Seq<char>> {
    match emission(s, t) {
        Some(id) => seq![id],
        None => Seq::empty(),
    }
}

impl RunReport {
    /// The report of a run in which nothing has happened yet.
    pub fn new() -> (report: Self)
        ensures
            report.processed == 0,
            report.notices@.len() == 0,
    {
        RunReport { processed: 0, notices: Vec::new() }
    }
}

/// Files `record` in `store` and counts it in `report`, with a milestone
/// where the count has come to a multiple of a thousand.
pub fn file_plate(record: Record, store: &mut RecordStore, report: &mut RunReport)
    requires
        old(report).processed < u128::MAX,
    ensures
        final(store)@ == old(store)@.insert(record@.identifier, record@),
        final(report).processed == old(report).processed + 1,
        notice_views(final(report).notices@) == notice_views(old(report).notices@) + milestone_at(
            (old(report).processed + 1) as nat,
        ),
{
    let ghost told = notice_views(report.notices@);
    store.insert(record);
    report.processed = report.processed + 1;
    if report.processed % 1000 == 0 {
        report.notices.push(Notice::Milestone { processed: report.processed });
    }
    proof {
        assert(notice_views(report.notices@) =~= told + milestone_at(report.processed as nat));
    }
}

/// Takes one token of the document of the entry `name` at `index`: moves
/// the scanner on, files the plate that the token completes, stamped with
/// the time of the clock, and at the end of the document tells of it where
/// it is an error, with the reason that the token gives. Returns whether
/// the document goes on.
pub fn take_token(
    token: Token,
    state: &mut ParseState,
    index: usize,
    name: &String,
    store: &mut RecordStore,
    report: &mut RunReport,
) -> (more: bool)
    requires
        old(report).processed < u128::MAX,
    ensures
        more == !is_terminal(token@),
        final(state)@ == next_state(old(state)@, token@),
        absorbs(old(store)@, final(store)@, found_at(old(state)@, token@)),
        final(report).processed == old(report).processed + found_at(old(state)@, token@).len(),
        notice_views(final(report).notices@) == notice_views(old(report).notices@) + milestones(
            old(report).processed as nat,
            found_at(old(state)@, token@).len(),
        ) + end_warning(index as nat, name@, token@),
        token@ is Malformed || token@ is Unreadable ==> reason_of(final(report).notices@.last())
            == failure_of(token),
{
    let ghost told = notice_views(report.notices@);
    let ghost held = store@;
    let ghost count = report.processed as nat;
    proof {
        lemma_absorbs_nothing(held);
        assert(milestones(count, 0) =~= Seq::<NoticeView>::empty());
        assert(milestones(count, 1) =~= milestone_at(count + 1)) by {
            assert(milestones(count, 1) == milestones(count, 0) + milestone_at(count + 1));
        }
        assert(told + Seq::<NoticeView>::empty() + Seq::<NoticeView>::empty() =~= told);
    }
    match token {
        Token::Eof => false,
        Token::Malformed { position, reason } => {
            report.notices.push(
                Notice::Warning(EntryError::Parse { entry_name: name.clone(), position, reason }),
            );
            proof {
                assert(notice_views(report.notices@) =~= told + Seq::<NoticeView>::empty()
                    + end_warning(index as nat, name@, token@));
            }
            false
        },
        Token::Unreadable { reason } => {
            report.notices.push(
                Notice::Warning(EntryError::Decode { index, name: name.clone(), reason }),
            );
            proof {
                assert(notice_views(report.notices@) =~= told + Seq::<NoticeView>::empty()
                    + end_warning(index as nat, name@, token@));
            }
            false
        },
        other => {
            match state.step(&other) {
                Some(id) => {
                    match Record::new(id, current_time()) {
                        Some(record) => {
                            file_plate(record, store, report);
                            proof {
                                lemma_absorbs_one_more(held, held, Seq::empty(), record@);
                                assert(Seq::<Seq<char>>::empty().push(record@.identifier) =~= seq![
                                    record@.identifier,
                                ]);
                                assert(notice_views(report.notices@) =~= told + milestones(count, 1)
                                    + Seq::<NoticeView>::empty());
                            }
                        },
                        None => {},
                    }
                },
                None => {},
            }
            true
        },
    }
}

/// Adding up the milestones of two stretches of a run.
proof fn lemma_milestones_add_up(before: nat, first: nat, second: nat)
    ensures
        milestones(before, first + second) == milestones(before, first) + milestones(
            before + first,
            second,
        ),
    decreases second,
{
    if second == 0 {
        assert(milestones(before, first) + milestones(before + first, 0) =~= milestones(
            before,
            first,
        ));
    } else {
        lemma_milestones_add_up(before, first, (second - 1) as nat);
        assert(milestones(before, first + second) == milestones(
            before,
            (first + second - 1) as nat,
        ) + milestone_at(before + first + second));
        assert(milestones(before + first, second) == milestones(
            before + first,
            (second - 1) as nat,
        ) + milestone_at(before + first + second));
        assert(milestones(before, first + second) =~= milestones(before, first) + milestones(
            before + first,
            second,
        ));
    }
}

/// Scans one document to its end, files each plate that it yields, and
/// tells of each thousandth plate of the run and of an end that is an error.
fn scan_entry(
    reader: &mut quick_xml::Reader<std::io::BufReader<zip::read::ZipFile<'_>>>,
    index: usize,
    name: &String,
    store: &mut RecordStore,
    report: &mut RunReport,
)
    requires
        complete(pending(*old(reader))),
        old(report).processed / 1000 <= old(report).notices@.len(),
    ensures
        absorbs(old(store)@, final(store)@, emitted(initial_state(), pending(*old(reader)))),
        final(report).processed == old(report).processed + emitted(
            initial_state(),
            pending(*old(reader)),
        ).len(),
        notice_views(final(report).notices@) == notice_views(old(report).notices@) + milestones(
            old(report).processed as nat,
            emitted(initial_state(), pending(*old(reader))).len(),
        ) + end_warning(index as nat, name@, pending(*old(reader)).last()),
        final(report).processed / 1000 <= final(report).notices@.len(),
{
    let ghost all = pending(*reader);
    let ghost store_before = store@;
    let ghost count_before = report.processed as nat;
    let ghost told_before = notice_views(report.notices@);
    let ghost mut seen: Seq<TokenView> = Seq::empty();
    let mut state = ParseState::new();
    let mut buffer: Vec<u8> = Vec::new();
    let mut more = true;
    proof {
        lemma_absorbs_nothing(store_before);
        assert(seen + pending(*reader) =~= all);
        assert(told_before + milestones(count_before, 0) =~= told_before);
    }
    while more
        invariant
            more ==> complete(pending(*reader)),
            more ==> seen + pending(*reader) == all,
            !more ==> seen == all && all.len() > 0,
            state@ == state_after(initial_state(), seen),
            absorbs(store_before, store@, emitted(initial_state(), seen)),
            report.processed == count_before + emitted(initial_state(), seen).len(),
            notice_views(report.notices@) == told_before + milestones(
                count_before,
                emitted(initial_state(), seen).len(),
            ) + if more {
                Seq::<NoticeView>::empty()
            } else {
                end_warning(index as nat, name@, all.last())
            },
            report.processed / 1000 <= report.notices@.len(),
        decreases pending(*reader).len() + if more { 1nat } else { 0nat },
    {
        let ghost rest = pending(*reader);
        let ghost held = store@;
        let ghost told = notice_views(report.notices@);
        let ghost found = emitted(initial_state(), seen);
        let ghost count = report.processed as nat;
        let token = next_token(reader, &mut buffer);
        let ghost longer = seen.push(token@);
        let ghost new = found_at(state@, token@);
        proof {
            assert(report.notices@.len() == report.notices.len());
            assert(longer.drop_last() =~= seen);
            assert(longer + pending(*reader) =~= all);
            assert(emitted(initial_state(), longer) =~= found + new);
            if is_terminal(token@) {
                assert(rest.len() == 1);
                assert(longer =~= all);
            } else {
                assert(rest.len() > 1);
                assert(forall|i: int|
                    0 <= i < rest.len() - 1 ==> rest.skip(1)[i] == #[trigger] rest[i + 1]);
            }
        }
        more = take_token(token, &mut state, index, name, store, report);
        proof {
            lemma_absorbs_in_turn(store_before, held, store@, found, new);
            lemma_milestones_add_up(count_before, found.len(), new.len());
            assert(told + Seq::<NoticeView>::empty() =~= told);
            if more {
                assert(end_warning(index as nat, name@, token@) =~= Seq::<NoticeView>::empty());
            }
            assert(notice_views(report.notices@) =~= told_before + milestones(
                count_before,
                (found + new).len(),
            ) + end_warning(index as nat, name@, token@));
            assert(report.notices@.len() == report.notices.len());
            seen = longer;
        }
        buffer.clear();
    }
}

/// Reads the zip archive in `bytes` and files in `store` every plate found
/// in its entries, one entry after the other.
///
/// Bytes that hold no readable archive are refused, and the store is left
/// as it is. Otherwise the run goes through all entries: a directory is
/// passed over; an entry that does not open, whose bytes give out or whose
/// markup is broken is given up with a warning, and what it yielded until
/// then stays on file. The report counts the plates filed and tells, in
/// order, of each file entry begun, of each thousandth plate and of each
/// entry given up.
pub fn process_zip_file(bytes: Vec<u8>, store: &mut RecordStore) -> (done: Result<
    RunReport,
    ArchiveFormatError,
>)
    ensures
        match archive_of(bytes@) {
            Some(slots) => done is Ok && done->Ok_0.processed == archive_ids(slots).len()
                && notice_views(done->Ok_0.notices@) == archive_notices(slots) && absorbs(
                old(store)@,
                final(store)@,
                archive_ids(slots),
            ),
            None => done is Err && final(store)@ == old(store)@,
        },
{
    match open_archive(bytes) {
        Err(error) => Err(ArchiveFormatError { reason: failure_text(&error) }),
        Ok(opened) => {
            let mut archive = opened;
            let total = entry_count(&archive);
            let ghost slots = entries(archive);
            let ghost store_before = store@;
            let mut report = RunReport::new();
            let password: Vec<u8> = Vec::new();
            let mut i: usize = 0;
            proof {
                lemma_absorbs_nothing(store_before);
                assert(slots.take(0) =~= Seq::empty());
                assert(notice_views(report.notices@) =~= Seq::empty());
            }
            while i < total
                invariant
                    entries(archive) == slots,
                    total == slots.len(),
                    i <= total,
                    password@.len() == 0,
                    absorbs(store_before, store@, archive_ids(slots.take(i as int))),
                    report.processed == archive_ids(slots.take(i as int)).len(),
                    notice_views(report.notices@) == archive_notices(slots.take(i as int)),
                    report.processed / 1000 <= report.notices@.len(),
                decreases total - i,
            {
                let ghost earlier = slots.take(i as int);
                let ghost held = store@;
                let ghost told = notice_views(report.notices@);
                proof {
                    assert(slots.take(i + 1).drop_last() =~= earlier);
                    assert(slots.take(i + 1).last() == slots[i as int]);
                }
                match open_entry(&mut archive, i, password.as_slice()) {
                    Err(failure) => {
                        let reason = match failure {
                            Some(error) => failure_text(&error),
                            None => "the entry is locked with a password".to_owned(),
                        };
                        report.notices.push(
                            Notice::Warning(
                                EntryError::Decode { index: i, name: String::new(), reason },
                            ),
                        );
                        proof {
                            lemma_absorbs_nothing(held);
                            lemma_absorbs_in_turn(
                                store_before,
                                held,
                                held,
                                archive_ids(earlier),
                                Seq::empty(),
                            );
                            assert(archive_ids(earlier) + Seq::<Seq<char>>::empty() =~= archive_ids(
                                earlier,
                            ));
                            assert(notice_views(report.notices@) =~= told + slot_notices(
                                i as nat,
                                slots[i as int],
                                archive_ids(earlier).len(),
                            ));
                        }
                    },
                    Ok(file) => {
                        if entry_is_dir(&file) {
                            proof {
                                assert(archive_ids(earlier) + Seq::<Seq<char>>::empty()
                                    =~= archive_ids(earlier));
                                assert(told + Seq::<NoticeView>::empty() =~= told);
                            }
                        } else {
                            let name = entry_name(&file);
                            let size = entry_size(&file);
                            report.notices.push(Notice::EntryStarted { name: name.clone(), size });
                            let mut reader = open_reader(file, true);
                            let ghost tokens = pending(reader);
                            let ghost begun = notice_views(report.notices@);
                            scan_entry(&mut reader, i, &name, store, &mut report);
                            proof {
                                let ids = emitted(initial_state(), tokens);
                                lemma_absorbs_in_turn(
                                    store_before,
                                    held,
                                    store@,
                                    archive_ids(earlier),
                                    ids,
                                );
                                assert(begun =~= told + seq![
                                    NoticeView::EntryStarted { name: name@, size },
                                ]);
                                assert(notice_views(report.notices@) =~= told + slot_notices(
                                    i as nat,
                                    slots[i as int],
                                    archive_ids(earlier).len(),
                                ));
                            }
                        }
                    },
                }
                i = i + 1;
            }
            proof {
                assert(slots.take(total as int) =~= slots);
            }
            Ok(report)
        },
    }
}

/// After a run every plate that an entry yielded is on file under its own
/// text, whether the entry was read to its end or given up at an error.
pub proof fn law_what_was_found_stays(
    before: Map<Seq<char>, RecordView>,
    after: Map<Seq<char>, RecordView>,
    slots: Seq<Option<FileView>>,
    entry: int,
    place: int,
)
    requires
        absorbs(before, after, archive_ids(slots)),
        0 <= entry < slots.len(),
        0 <= place < slot_ids(slots[entry]).len(),
    ensures
        after.contains_key(slot_ids(slots[entry])[place]),
        after[slot_ids(slots[entry])[place]].identifier == slot_ids(slots[entry])[place],
{
    lemma_entry_ids_are_archive_ids(slots, entry, place);
}

/// The plates of each entry are among those of the archive.
proof fn lemma_entry_ids_are_archive_ids(slots: Seq<Option<FileView>>, entry: int, place: int)
    requires
        0 <= entry < slots.len(),
        0 <= place < slot_ids(slots[entry]).len(),
    ensures
        archive_ids(slots).contains(slot_ids(slots[entry])[place]),
    decreases slots.len(),
{
    let id = slot_ids(slots[entry])[place];
    let earlier = slots.drop_last();
    let all = archive_ids(slots);
    if entry == slots.len() - 1 {
        assert(all[archive_ids(earlier).len() + place] == id);
    } else {
        assert(earlier[entry] == slots[entry]);
        lemma_entry_ids_are_archive_ids(earlier, entry, place);
        let i = choose|i: int| 0 <= i < archive_ids(earlier).len() && archive_ids(earlier)[i] == id;
        assert(all[i] == id);
    }
}

} // verus!
