//! From one commit's diff lines to at most one change event, and the model
//! of the whole stream: which commits qualify, what each contributes, and
//! the order and count laws of the result.

use vstd::prelude::*;
use crate::codec::enc_record;
use crate::parse::{parse_line, strip_nl};
use crate::record::{default_record_model, opt_bytes_view};
use crate::record::{Change, ChangeModel, ChangeType, PackageVersionRecord, RecordModel};

verus! {

/// One line of a commit's tree diff, as plain values: whether the file-level
/// delta was a deletion, the line's origin marker byte, and its raw bytes.
#[derive(Debug, Clone, PartialEq, Eq)]
pub struct DiffLineRec {
    pub deleted: bool,
    pub origin: u8,
    pub content: Vec<u8>,
}

/// Mathematical model of one diff line.
#[verifier::ext_equal]
pub ghost struct LineModel {
    pub deleted: bool,
    pub origin: u8,
    pub content: Seq<u8>,
}

impl View for DiffLineRec {
    type V = LineModel;

    open spec fn view(&self) -> LineModel {
        LineModel { deleted: self.deleted, origin: self.origin, content: self.content@ }
    }
}

/// The views of a list of diff lines.
pub open spec fn line_views(ls: Seq<DiffLineRec>) -> Seq<LineModel> {
    ls.map_values(|l: DiffLineRec| l@)
}

/// Does the origin marker of a line say added (`+`) or removed (`-`)?
/// Context lines carry other markers and are ignored.
pub open spec fn is_change_line(l: LineModel) -> bool {
    l.origin == 43 || l.origin == 45
}

/// Does any line of the diff count as added or removed?
pub open spec fn has_change_line(ls: Seq<LineModel>) -> bool
    decreases ls.len(),
{
    if ls.len() == 0 {
        false
    } else {
        is_change_line(ls.last()) || has_change_line(ls.drop_last())
    }
}

/// The delta the event carries: from the last added-or-removed line,
/// `Deleted` when its file was deleted, `Modified` otherwise or before any.
pub open spec fn delta_of_lines(ls: Seq<LineModel>) -> ChangeType
    decreases ls.len(),
{
    if ls.len() == 0 {
        ChangeType::Modified
    } else if is_change_line(ls.last()) {
        if ls.last().deleted {
            ChangeType::Deleted
        } else {
            ChangeType::Modified
        }
    } else {
        delta_of_lines(ls.drop_last())
    }
}

/// The record a line carries, exactly when its body (one trailing newline
/// stripped) is the canonical encoding of some record.
pub open spec fn line_record(c: Seq<u8>) -> Option<RecordModel> {
    if exists|m: RecordModel| strip_nl(c) == enc_record(m) {
        Some(choose|m: RecordModel| strip_nl(c) == enc_record(m))
    } else {
        None
    }
}

/// The payload after folding the lines in order: the record of the last
/// added-or-removed line that parses; a line that does not parse leaves the
/// payload it found, so it stays the empty record when none ever parses.
pub open spec fn payload_of_lines(ls: Seq<LineModel>) -> RecordModel
    decreases ls.len(),
{
    if ls.len() == 0 {
        default_record_model()
    } else if is_change_line(ls.last()) && line_record(ls.last().content) is Some {
        line_record(ls.last().content)->Some_0
    } else {
        payload_of_lines(ls.drop_last())
    }
}

/// The event one commit's diff lines and message fold into: none when the
/// diff holds no added or removed line.
pub open spec fn event_of_lines(ls: Seq<LineModel>, msg: Option<Seq<u8>>) -> Option<ChangeModel> {
    if has_change_line(ls) {
        Some(
            ChangeModel {
                delta: delta_of_lines(ls),
                message: msg,
                payload: payload_of_lines(ls),
            },
        )
    } else {
        None
    }
}

/// Fold one commit's diff lines, in order, into at most one change event.
pub fn classify_lines(lines: &Vec<DiffLineRec>, message: Option<Vec<u8>>) -> (r: Option<Change>)
    ensures
        r matches Some(c) ==> event_of_lines(line_views(lines@), opt_bytes_view(message)) == Some(
            c@,
        ),
        r is None ==> event_of_lines(line_views(lines@), opt_bytes_view(message)) is None,
{
    let mut found = false;
    let mut delta = ChangeType::Modified;
    let mut payload = PackageVersionRecord::default();
    let mut i: usize = 0;
    let ghost vs = line_views(lines@);
    proof {
        assert(vs.take(0) =~= Seq::<LineModel>::empty());
    }
    while i < lines.len()
        invariant
            i <= lines@.len(),
            vs == line_views(lines@),
            vs.len() == lines@.len(),
            found == has_change_line(vs.take(i as int)),
            delta == delta_of_lines(vs.take(i as int)),
            payload@ == payload_of_lines(vs.take(i as int)),
        decreases lines@.len() - i,
    {
        proof {
            assert(vs.take(i as int + 1).drop_last() =~= vs.take(i as int));
            assert(vs.take(i as int + 1).last() == vs[i as int]);
            assert(vs[i as int] == lines@[i as int]@);
        }
        let l = &lines[i];
        if l.origin == 43 || l.origin == 45 {
            found = true;
            delta = if l.deleted {
                ChangeType::Deleted
            } else {
                ChangeType::Modified
            };
            let parsed = parse_line(l.content.as_slice());
            match parsed {
                Some(rec) => {
                    proof {
                        assert(line_record(vs[i as int].content) == Some(rec@)) by {
                            assert(strip_nl(lines@[i as int].content@) == enc_record(rec@));
                        }
                    }
                    payload = rec;
                },
                None => {
                    proof {
                        assert(line_record(vs[i as int].content) is None) by {
                            if exists|m: RecordModel|
                                strip_nl(lines@[i as int].content@) == enc_record(m) {
                                let m0 = choose|m: RecordModel|
                                    strip_nl(lines@[i as int].content@) == enc_record(m);
                                assert(false);
                            }
                        }
                    }
                },
            }
        }
        i += 1;
    }
    proof {
        assert(vs.take(vs.len() as int) =~= vs);
    }
    if found {
        let c = Change { delta, message, payload };
        proof {
            assert(c@ =~= ChangeModel {
                delta: delta_of_lines(vs),
                message: opt_bytes_view(message),
                payload: payload_of_lines(vs),
            });
        }
        Some(c)
    } else {
        None
    }
}

/// The author identity of the registry automation: the byte string `bors`.
pub open spec fn automation_identity() -> Seq<u8> {
    seq![98u8, 111, 114, 115]
}

/// Is this author name exactly the canonical automation identity?
pub fn is_automation_author(name: &Option<Vec<u8>>) -> (r: bool)
    ensures
        r == (opt_bytes_view(*name) matches Some(n) && n == automation_identity()),
{
    match name {
        Some(n) => {
            let mut b: Vec<u8> = Vec::new();
            b.push(98);
            b.push(111);
            b.push(114);
            b.push(115);
            proof {
                assert(b@ =~= automation_identity());
            }
            crate::support::bytes_eq(n.as_slice(), b.as_slice())
        },
        None => false,
    }
}

/// Model of one post-root commit of a walk: its author name, its message,
/// and the lines of its diff against its first parent.
#[verifier::ext_equal]
pub ghost struct CommitModel {
    pub author: Option<Seq<u8>>,
    pub message: Option<Seq<u8>>,
    pub lines: Seq<LineModel>,
}

/// Does a commit qualify: authored by the automation identity?
pub open spec fn qualifies(c: CommitModel) -> bool {
    c.author matches Some(n) && n == automation_identity()
}

/// The event one commit contributes, if any: nothing unless it qualifies
/// and its diff holds an added or removed line.
pub open spec fn commit_event(c: CommitModel) -> Option<ChangeModel> {
    if qualifies(c) {
        event_of_lines(c.lines, c.message)
    } else {
        None
    }
}

/// The whole stream of a history's post-root commits, oldest first.
pub open spec fn events_of(cs: Seq<CommitModel>) -> Seq<ChangeModel>
    decreases cs.len(),
{
    if cs.len() == 0 {
        Seq::empty()
    } else {
        (match commit_event(cs[0]) {
            Some(e) => seq![e],
            None => Seq::empty(),
        }) + events_of(cs.skip(1))
    }
}

/// Walking a history is walking its parts in order.
pub proof fn lemma_events_of_concat(a: Seq<CommitModel>, b: Seq<CommitModel>)
    ensures
        events_of(a + b) == events_of(a) + events_of(b),
    decreases a.len(),
{
    if a.len() == 0 {
        assert(a + b =~= b);
        assert(events_of(a) + events_of(b) =~= events_of(b));
    } else {
        assert((a + b).skip(1) =~= a.skip(1) + b);
        lemma_events_of_concat(a.skip(1), b);
        assert((a + b)[0] == a[0]);
        match commit_event(a[0]) {
            Some(e) => {
                assert(seq![e] + (events_of(a.skip(1)) + events_of(b)) =~= (seq![e] + events_of(
                    a.skip(1),
                )) + events_of(b));
            },
            None => {
                assert(Seq::<ChangeModel>::empty() + (events_of(a.skip(1)) + events_of(b)) =~= (
                Seq::<ChangeModel>::empty() + events_of(a.skip(1))) + events_of(b));
            },
        }
    }
}

/// How many commits of a history carry no added-or-removed diff line.
pub open spec fn count_no_change(cs: Seq<CommitModel>) -> int
    decreases cs.len(),
{
    if cs.len() == 0 {
        0
    } else {
        (if has_change_line(cs[0].lines) {
            0int
        } else {
            1int
        }) + count_no_change(cs.skip(1))
    }
}

/// When every commit of a history is authored by the automation identity,
/// the stream holds one event per commit, less those whose diffs hold no
/// added or removed line.
pub proof fn lemma_event_count(cs: Seq<CommitModel>)
    requires
        forall|k: int| 0 <= k < cs.len() ==> qualifies(#[trigger] cs[k]),
    ensures
        events_of(cs).len() == cs.len() - count_no_change(cs),
    decreases cs.len(),
{
    if cs.len() > 0 {
        assert(qualifies(cs[0]));
        assert forall|k: int| 0 <= k < cs.skip(1).len() implies qualifies(
            #[trigger] cs.skip(1)[k],
        ) by {
            assert(cs.skip(1)[k] == cs[k + 1]);
        }
        lemma_event_count(cs.skip(1));
    }
}

/// The events of the first `k` commits stand first, in order, before the
/// events of the rest.
pub proof fn lemma_events_prefix(cs: Seq<CommitModel>, k: int)
    requires
        0 <= k <= cs.len(),
    ensures
        events_of(cs) == events_of(cs.take(k)) + events_of(cs.skip(k)),
{
    assert(cs.take(k) + cs.skip(k) =~= cs);
    lemma_events_of_concat(cs.take(k), cs.skip(k));
}

/// Appending one commit to a prefix appends its event, if any.
proof fn lemma_events_take_succ(cs: Seq<CommitModel>, k: int)
    requires
        0 <= k < cs.len(),
    ensures
        events_of(cs.take(k + 1)) == events_of(cs.take(k)) + (match commit_event(cs[k]) {
            Some(e) => seq![e],
            None => Seq::empty(),
        }),
{
    assert(cs.take(k + 1) =~= cs.take(k) + seq![cs[k]]);
    lemma_events_of_concat(cs.take(k), seq![cs[k]]);
    assert(events_of(seq![cs[k]]) =~= (match commit_event(cs[k]) {
        Some(e) => seq![e],
        None => Seq::<ChangeModel>::empty(),
    })) by {
        reveal_with_fuel(events_of, 2);
        assert(seq![cs[k]].skip(1) =~= Seq::<CommitModel>::empty());
    }
}

/// A longer prefix of the history never yields fewer events.
proof fn lemma_events_len_mono(cs: Seq<CommitModel>, a: int, b: int)
    requires
        0 <= a <= b <= cs.len(),
    ensures
        events_of(cs.take(a)).len() <= events_of(cs.take(b)).len(),
{
    assert(cs.take(b) =~= cs.take(a) + cs.skip(a).take(b - a));
    lemma_events_of_concat(cs.take(a), cs.skip(a).take(b - a));
}

/// Events keep the commits' order: when commit `a` comes before commit `b`
/// and both contribute an event, the event of `a` stands at a strictly
/// smaller index of the stream than the event of `b`, whatever other
/// commits surround them.
pub proof fn lemma_event_order(cs: Seq<CommitModel>, a: int, b: int)
    requires
        0 <= a < b < cs.len(),
        commit_event(cs[a]) is Some,
        commit_event(cs[b]) is Some,
    ensures
        0 <= events_of(cs.take(a + 1)).len() - 1 < events_of(cs.take(b + 1)).len() - 1 < events_of(
            cs,
        ).len(),
        events_of(cs)[events_of(cs.take(a + 1)).len() - 1] == commit_event(cs[a])->Some_0,
        events_of(cs)[events_of(cs.take(b + 1)).len() - 1] == commit_event(cs[b])->Some_0,
{
    let ea = commit_event(cs[a])->Some_0;
    let eb = commit_event(cs[b])->Some_0;
    lemma_events_take_succ(cs, a);
    lemma_events_take_succ(cs, b);
    lemma_events_len_mono(cs, a + 1, b);
    lemma_events_prefix(cs, a + 1);
    lemma_events_prefix(cs, b + 1);
    let pa = events_of(cs.take(a + 1)).len() - 1;
    let pb = events_of(cs.take(b + 1)).len() - 1;
    assert(events_of(cs.take(a + 1)).last() == ea);
    assert(events_of(cs.take(b + 1)).last() == eb);
    assert(events_of(cs) == events_of(cs.take(a + 1)) + events_of(cs.skip(a + 1)));
    assert(events_of(cs)[pa] == ea);
    assert(events_of(cs) == events_of(cs.take(b + 1)) + events_of(cs.skip(b + 1)));
    assert(events_of(cs)[pb] == eb);
}

} // verus!
