//! Review engine: the note collection, review selection and application.
//!
//! The engine works on a snapshot of parsed notes.  Each note carries
//! its unique name, a review counter and the last-reviewed instant; the
//! collection keeps names unique.  Selection ranks notes by neglect,
//! application bumps the counter and stamps the instant.

pub mod select;
pub mod time;

use vstd::prelude::*;

use self::time::{Timestamp, NANOS_PER_SEC, MAX_TS_SECS, ts_parse, ts_store, parse_timestamp, store_timestamp};
use crate::storage::{Note, NoteV};

verus! {

/// Errors of the review engine.
#[derive(Clone, Copy, Debug, PartialEq, Eq, Structural)]
pub enum TrackerError {
    /// A duration was requested from a later instant to an earlier one.
    InvalidOrder,
    /// A stored timestamp string does not match the expected format, or
    /// denotes an instant outside the representable range.
    ParseError,
    /// An instant could not be rendered in the timestamp format.
    DateTimeFormatting,
}

/// The mathematical shape of a tracked note: its name's characters,
/// its review counter, and its last-reviewed instant.
pub ghost struct NoteEntryV {
    pub name: Seq<char>,
    pub freq: u16,
    pub last: Timestamp,
}

/// A tracked note: unique name, review counter, last-reviewed instant.
#[derive(Debug)]
pub struct NoteEntry {
    pub name: String,
    pub freq: u16,
    pub last_reviewed: Timestamp,
}

impl View for NoteEntry {
    type V = NoteEntryV;

    open spec fn view(&self) -> NoteEntryV {
        NoteEntryV { name: self.name@, freq: self.freq, last: self.last_reviewed }
    }
}

impl Clone for NoteEntry {
    fn clone(&self) -> (r: Self)
        ensures
            r == *self,
    {
        NoteEntry { name: self.name.clone(), freq: self.freq, last_reviewed: self.last_reviewed }
    }
}

impl NoteEntry {
    /// Builds a tracked note from its three fields.
    pub fn new(name: String, freq: u16, last_reviewed: Timestamp) -> (r: Self)
        ensures
            r.name == name,
            r.freq == freq,
            r.last_reviewed == last_reviewed,
    {
        Self { name, freq, last_reviewed }
    }
}

/// The views of a run of tracked notes.
pub open spec fn views_of(s: Seq<NoteEntry>) -> Seq<NoteEntryV> {
    s.map_values(|e: NoteEntry| e@)
}

/// Pairwise distinct names.
pub open spec fn names_distinct(s: Seq<NoteEntryV>) -> bool {
    forall|i: int, j: int|
        0 <= i < j < s.len() ==> #[trigger] s[i].name != #[trigger] s[j].name
}

/// Every instant well-formed.
pub open spec fn entries_wf(s: Seq<NoteEntryV>) -> bool {
    forall|i: int| 0 <= i < s.len() ==> (#[trigger] s[i]).last.wf()
}

/// A well-formed snapshot: unique names, well-formed instants.
pub open spec fn coll_wf(s: Seq<NoteEntryV>) -> bool {
    names_distinct(s) && entries_wf(s)
}

/// The note collection: a keyed snapshot of tracked notes, names
/// unique.  Iteration order carries no meaning; every ranking the
/// engine produces breaks ties deterministically by name instead.
#[derive(Debug)]
pub struct NoteCollection {
    pub notes: Vec<NoteEntry>,
}

impl View for NoteCollection {
    type V = Seq<NoteEntryV>;

    open spec fn view(&self) -> Seq<NoteEntryV> {
        views_of(self.notes@)
    }
}

impl NoteCollection {
    /// Unique names and well-formed instants.
    pub open spec fn wf(self) -> bool {
        coll_wf(self@)
    }

    /// The empty collection.
    pub fn new() -> (r: NoteCollection)
        ensures
            r@ == Seq::<NoteEntryV>::empty(),
            r.wf(),
    {
        let r = NoteCollection { notes: Vec::new() };
        proof {
            assert(r@ =~= Seq::<NoteEntryV>::empty());
        }
        r
    }

    /// How many notes the collection holds.
    pub fn len(&self) -> (n: usize)
        ensures
            n == self@.len(),
    {
        self.notes.len()
    }
}

/// Whether some entry of `s` bears `name`.
pub open spec fn name_in(s: Seq<NoteEntryV>, name: Seq<char>) -> bool {
    exists|i: int| 0 <= i < s.len() && (#[trigger] s[i]).name == name
}

/// Whether some note of `v` bears `name`.
pub(crate) fn contains_name(v: &Vec<NoteEntry>, name: &String) -> (r: bool)
    ensures
        r == name_in(views_of(v@), name@),
{
    let n = v.len();
    let mut j: usize = 0;
    while j < n
        invariant
            0 <= j <= n,
            n == v@.len(),
            forall|t: int| 0 <= t < j ==> (#[trigger] views_of(v@)[t]).name != name@,
        decreases n - j,
    {
        proof {
            assert(views_of(v@)[j as int] == v@[j as int]@);
        }
        if v[j].name == *name {
            return true;
        }
        j += 1;
    }
    false
}

/// The counter after one more review: up by one, saturating at the
/// counter's width rather than wrapping.
pub open spec fn sat_inc(f: u16) -> u16 {
    if f < 65535 {
        (f + 1) as u16
    } else {
        f
    }
}

fn sat_inc_exec(f: u16) -> (r: u16)
    ensures
        r == sat_inc(f),
{
    if f < 65535 {
        f + 1
    } else {
        f
    }
}

/// What one review session does to a single note: notes matched by
/// name get their counter bumped (saturating) and their instant set to
/// `now`; all others are untouched.
pub open spec fn spec_reviewed(e: NoteEntryV, reviewed: Seq<NoteEntryV>, now: Timestamp) -> NoteEntryV {
    if name_in(reviewed, e.name) {
        NoteEntryV { name: e.name, freq: sat_inc(e.freq), last: now }
    } else {
        e
    }
}

/// Applies a completed review session: every note of the collection
/// whose name matches an entry of `reviewed` has its counter bumped by
/// exactly one (saturating) and its last-reviewed instant set to
/// `now`; matching goes by name, never by whole-value equality.
pub fn update_reviewed_notes(c: &mut NoteCollection, reviewed: &Vec<NoteEntry>, now: Timestamp)
    requires
        old(c).wf(),
        now.wf(),
    ensures
        final(c)@.len() == old(c)@.len(),
        forall|i: int|
            0 <= i < old(c)@.len() ==> #[trigger] final(c)@[i] == spec_reviewed(
                old(c)@[i],
                views_of(reviewed@),
                now,
            ),
        final(c).wf(),
{
    let n = c.notes.len();
    let mut i: usize = 0;
    while i < n
        invariant
            0 <= i <= n,
            n == c.notes@.len(),
            c.notes@.len() == old(c).notes@.len(),
            now.wf(),
            old(c).wf(),
            forall|t: int| i <= t < n ==> #[trigger] c.notes@[t] == old(c).notes@[t],
            forall|t: int|
                0 <= t < i ==> (#[trigger] c.notes@[t])@ == spec_reviewed(
                    old(c).notes@[t]@,
                    views_of(reviewed@),
                    now,
                ),
        decreases n - i,
    {
        let ghost pre = c.notes@;
        let matched = contains_name(reviewed, &c.notes[i].name);
        proof {
            assert(matched == name_in(views_of(reviewed@), pre[i as int]@.name));
        }
        if matched {
            let name = c.notes[i].name.clone();
            let freq = sat_inc_exec(c.notes[i].freq);
            let e = NoteEntry { name, freq, last_reviewed: now };
            proof {
                assert(e@ == NoteEntryV {
                    name: pre[i as int]@.name,
                    freq: sat_inc(pre[i as int]@.freq),
                    last: now,
                });
            }
            c.notes[i] = e;
        }
        proof {
            assert forall|t: int|
                0 <= t < i + 1 implies (#[trigger] c.notes@[t])@ == spec_reviewed(
                old(c).notes@[t]@,
                views_of(reviewed@),
                now,
            ) by {
                if t < i {
                    assert(c.notes@[t] == pre[t]);
                } else {
                    assert(old(c).notes@[t] == pre[t]);
                    if matched {
                        assert(c.notes@[t]@ == NoteEntryV {
                            name: pre[t]@.name,
                            freq: sat_inc(pre[t]@.freq),
                            last: now,
                        });
                        assert(name_in(views_of(reviewed@), old(c).notes@[t]@.name));
                    } else {
                        assert(c.notes@[t] == pre[t]);
                        assert(!name_in(views_of(reviewed@), old(c).notes@[t]@.name));
                    }
                }
            }
        }
        i += 1;
    }
    proof {
        assert forall|i2: int|
            0 <= i2 < old(c)@.len() implies #[trigger] c@[i2] == spec_reviewed(
            old(c)@[i2],
            views_of(reviewed@),
            now,
        ) by {
            assert(c@[i2] == c.notes@[i2]@);
            assert(old(c)@[i2] == old(c).notes@[i2]@);
        }
        assert forall|i2: int, j2: int|
            0 <= i2 < j2 < c@.len() implies c@[i2].name != c@[j2].name by {
            assert(c@[i2] == spec_reviewed(old(c)@[i2], views_of(reviewed@), now));
            assert(c@[j2] == spec_reviewed(old(c)@[j2], views_of(reviewed@), now));
            assert(c@[i2].name == old(c)@[i2].name);
            assert(c@[j2].name == old(c)@[j2].name);
        }
        assert forall|i2: int| 0 <= i2 < c@.len() implies (#[trigger] c@[i2]).last.wf() by {
            assert(c@[i2] == spec_reviewed(old(c)@[i2], views_of(reviewed@), now));
            assert(old(c)@[i2].last.wf());
        }
    }
}

/// The views of a run of stored records.
pub open spec fn rec_views(s: Seq<Note>) -> Seq<NoteV> {
    s.map_values(|r: Note| r@)
}

/// `e` joined into the snapshot by name: the first note bearing its
/// name is replaced, or `e` is appended when the name is new.
pub open spec fn upsert(s: Seq<NoteEntryV>, e: NoteEntryV) -> Seq<NoteEntryV>
    decreases s.len(),
{
    if s.len() == 0 {
        seq![e]
    } else if s[0].name == e.name {
        seq![e] + s.drop_first()
    } else {
        seq![s[0]] + upsert(s.drop_first(), e)
    }
}

/// Joining a well-formed note into a well-formed snapshot keeps it
/// well-formed; the names afterwards are the old names plus the new
/// one.
pub proof fn lemma_upsert_props(s: Seq<NoteEntryV>, e: NoteEntryV)
    requires
        coll_wf(s),
        e.last.wf(),
    ensures
        coll_wf(upsert(s, e)),
        forall|n: Seq<char>| #[trigger] name_in(upsert(s, e), n) <==> (name_in(s, n) || n == e.name),
    decreases s.len(),
{
    let r = upsert(s, e);
    if s.len() == 0 {
        assert forall|n: Seq<char>| #[trigger] name_in(r, n) implies (name_in(s, n) || n
            == e.name) by {
            let w = choose|w: int| 0 <= w < r.len() && r[w].name == n;
            assert(r[0] == e);
        }
        assert(name_in(r, e.name)) by {
            assert(r[0] == e);
        }
    } else if s[0].name == e.name {
        let s1 = s.drop_first();
        assert forall|i: int, j: int| 0 <= i < j < r.len() implies r[i].name != r[j].name by {
            if i == 0 {
                assert(r[j] == s1[j - 1]);
                assert(s[0].name != s[j].name);
                assert(s1[j - 1] == s[j]);
            } else {
                assert(r[i] == s[i]);
                assert(r[j] == s[j]);
            }
        }
        assert forall|i: int| 0 <= i < r.len() implies (#[trigger] r[i]).last.wf() by {
            if i > 0 {
                assert(r[i] == s[i]);
                assert(s[i].last.wf());
            }
        }
        assert forall|n: Seq<char>| #[trigger] name_in(r, n) implies (name_in(s, n) || n
            == e.name) by {
            let w = choose|w: int| 0 <= w < r.len() && r[w].name == n;
            if w > 0 {
                assert(s[w].name == n);
            }
        }
        assert forall|n: Seq<char>| name_in(s, n) || n == e.name implies #[trigger] name_in(
            r,
            n,
        ) by {
            if n == e.name {
                assert(r[0] == e);
            } else {
                let w = choose|w: int| 0 <= w < s.len() && s[w].name == n;
                assert(w != 0);
                assert(r[w] == s[w]);
            }
        }
    } else {
        let s1 = s.drop_first();
        assert forall|i: int, j: int| 0 <= i < j < s1.len() implies s1[i].name != s1[j].name by {
            assert(s[i + 1].name != s[j + 1].name);
        }
        assert forall|i: int| 0 <= i < s1.len() implies (#[trigger] s1[i]).last.wf() by {
            assert(s[i + 1].last.wf());
        }
        lemma_upsert_props(s1, e);
        let r1 = upsert(s1, e);
        assert forall|i: int, j: int| 0 <= i < j < r.len() implies r[i].name != r[j].name by {
            if i == 0 {
                assert(r[j] == r1[j - 1]);
                assert(r1[j - 1].name == r[j].name);
                assert(name_in(r1, r[j].name)) by {
                    assert(r1[j - 1].name == r[j].name);
                }
                if r[j].name == e.name {
                } else {
                    assert(name_in(s1, r[j].name));
                    let w = choose|w: int| 0 <= w < s1.len() && s1[w].name == r[j].name;
                    assert(s[0].name != s[w + 1].name);
                }
            } else {
                assert(r[i] == r1[i - 1]);
                assert(r[j] == r1[j - 1]);
            }
        }
        assert forall|i: int| 0 <= i < r.len() implies (#[trigger] r[i]).last.wf() by {
            if i > 0 {
                assert(r[i] == r1[i - 1]);
                assert(r1[i - 1].last.wf());
            }
        }
        assert forall|n: Seq<char>| #[trigger] name_in(r, n) implies (name_in(s, n) || n
            == e.name) by {
            let w = choose|w: int| 0 <= w < r.len() && r[w].name == n;
            if w == 0 {
                assert(s[0].name == n);
            } else {
                assert(r1[w - 1].name == n);
                assert(name_in(r1, n));
                if n != e.name {
                    assert(name_in(s1, n));
                    let w2 = choose|w2: int| 0 <= w2 < s1.len() && s1[w2].name == n;
                    assert(s[w2 + 1].name == n);
                }
            }
        }
        assert forall|n: Seq<char>| name_in(s, n) || n == e.name implies #[trigger] name_in(
            r,
            n,
        ) by {
            if n == e.name || name_in(s1, n) {
                assert(name_in(r1, n));
                let w = choose|w: int| 0 <= w < r1.len() && r1[w].name == n;
                assert(r[w + 1] == r1[w]);
            } else {
                let w = choose|w: int| 0 <= w < s.len() && s[w].name == n;
                if w == 0 {
                    assert(r[0] == s[0]);
                } else {
                    assert(s1[w - 1].name == n);
                    assert(name_in(s1, n));
                }
            }
        }
    }
}

/// Replacing the first note of `e`'s name, found at `i`, is an update
/// at `i`.
pub proof fn lemma_upsert_at(s: Seq<NoteEntryV>, e: NoteEntryV, i: int)
    requires
        0 <= i < s.len(),
        s[i].name == e.name,
        forall|t: int| 0 <= t < i ==> (#[trigger] s[t]).name != e.name,
    ensures
        upsert(s, e) == s.update(i, e),
    decreases i,
{
    if i == 0 {
        assert(upsert(s, e) =~= s.update(0, e));
    } else {
        let s1 = s.drop_first();
        assert(s[0].name != e.name);
        assert forall|t: int| 0 <= t < i - 1 implies (#[trigger] s1[t]).name != e.name by {
            assert(s1[t] == s[t + 1]);
        }
        assert(s1[i - 1] == s[i]);
        lemma_upsert_at(s1, e, i - 1);
        assert(seq![s[0]] + s1.update(i - 1, e) =~= s.update(i, e));
    }
}

/// Joining a new name appends the note.
pub proof fn lemma_upsert_absent(s: Seq<NoteEntryV>, e: NoteEntryV)
    requires
        forall|t: int| 0 <= t < s.len() ==> (#[trigger] s[t]).name != e.name,
    ensures
        upsert(s, e) == s.push(e),
    decreases s.len(),
{
    if s.len() == 0 {
        assert(upsert(s, e) =~= s.push(e));
    } else {
        let s1 = s.drop_first();
        assert forall|t: int| 0 <= t < s1.len() implies (#[trigger] s1[t]).name != e.name by {
            assert(s1[t] == s[t + 1]);
        }
        lemma_upsert_absent(s1, e);
        assert(seq![s[0]] + s1.push(e) =~= s.push(e));
    }
}

/// Joins one note into the collection by name: the note of the same
/// name is replaced, or the new note is appended.
pub fn insert_note(c: &mut NoteCollection, e: NoteEntry)
    requires
        old(c).wf(),
        e.last_reviewed.wf(),
    ensures
        final(c)@ == upsert(old(c)@, e@),
        final(c).wf(),
{
    let ghost ev = e@;
    let ghost pre = c.notes@;
    proof {
        lemma_upsert_props(old(c)@, ev);
    }
    let n = c.notes.len();
    let mut i: usize = 0;
    while i < n
        invariant
            0 <= i <= n,
            n == c.notes@.len(),
            c.notes@ == pre,
            views_of(pre) == old(c)@,
            old(c).wf(),
            e@ == ev,
            ev.last.wf(),
            forall|t: int| 0 <= t < i ==> (#[trigger] views_of(pre)[t]).name != ev.name,
        decreases n - i,
    {
        proof {
            assert(views_of(pre)[i as int] == pre[i as int]@);
        }
        if c.notes[i].name == e.name {
            proof {
                lemma_upsert_at(views_of(pre), ev, i as int);
            }
            c.notes[i] = e;
            proof {
                assert(views_of(c.notes@) =~= views_of(pre).update(i as int, ev)) by {
                    assert forall|t: int|
                        0 <= t < c.notes@.len() implies views_of(c.notes@)[t] == views_of(
                        pre,
                    ).update(i as int, ev)[t] by {
                        assert(views_of(c.notes@)[t] == c.notes@[t]@);
                        if t != i {
                            assert(c.notes@[t] == pre[t]);
                            assert(views_of(pre)[t] == pre[t]@);
                        }
                    }
                }
                assert(c@ == upsert(old(c)@, ev));
                lemma_upsert_props(old(c)@, ev);
            }
            return;
        }
        i += 1;
    }
    proof {
        lemma_upsert_absent(views_of(pre), ev);
    }
    c.notes.push(e);
    proof {
        assert(views_of(c.notes@) =~= views_of(pre).push(ev)) by {
            assert forall|t: int|
                0 <= t < c.notes@.len() implies views_of(c.notes@)[t] == views_of(pre).push(
                ev,
            )[t] by {
                assert(views_of(c.notes@)[t] == c.notes@[t]@);
                if t < pre.len() {
                    assert(c.notes@[t] == pre[t]);
                    assert(views_of(pre)[t] == pre[t]@);
                }
            }
        }
    }
}

/// What loading one stored record yields: a tracked note, or nothing
/// when its timestamp does not parse.
pub open spec fn spec_entry_of(r: NoteV) -> Option<NoteEntryV> {
    match ts_parse(r.last_accessed) {
        None => None,
        Some(p) => if p.1 < NANOS_PER_SEC && -MAX_TS_SECS <= p.0 <= MAX_TS_SECS {
            Some(NoteEntryV { name: r.name, freq: r.freq, last: Timestamp { secs: p.0, nanos: p.1 } })
        } else {
            None
        },
    }
}

/// What loading a run of stored records yields: each record parsed in
/// turn and joined by name — a later record of a name replaces an
/// earlier one — or nothing as soon as one record refuses to parse.
pub open spec fn spec_load(rs: Seq<NoteV>) -> Option<Seq<NoteEntryV>>
    decreases rs.len(),
{
    if rs.len() == 0 {
        Some(Seq::<NoteEntryV>::empty())
    } else {
        match spec_load(rs.drop_last()) {
            None => None,
            Some(acc) => match spec_entry_of(rs.last()) {
                None => None,
                Some(e) => Some(upsert(acc, e)),
            },
        }
    }
}

/// A load that has already failed on a prefix fails on the whole.
proof fn lemma_spec_load_none_extends(rs: Seq<NoteV>, k: int)
    requires
        0 <= k <= rs.len(),
        spec_load(rs.subrange(0, k)) is None,
    ensures
        spec_load(rs) is None,
    decreases rs.len() - k,
{
    if k == rs.len() {
        assert(rs.subrange(0, k) =~= rs);
    } else {
        let sub1 = rs.subrange(0, k + 1);
        assert(sub1.drop_last() =~= rs.subrange(0, k));
        assert(spec_load(sub1) is None);
        lemma_spec_load_none_extends(rs, k + 1);
    }
}

/// Builds the collection from the stored records, parsing each
/// record's timestamp; records of one name collapse onto the last.
/// One unparseable record refuses the whole load as
/// [`TrackerError::ParseError`]: the engine never guesses a default.
pub fn load_map(records: &Vec<Note>) -> (r: Result<NoteCollection, TrackerError>)
    ensures
        spec_load(rec_views(records@)) is None ==> r == Err::<NoteCollection, TrackerError>(
            TrackerError::ParseError,
        ),
        spec_load(rec_views(records@)) matches Some(s) ==> (r matches Ok(c) && c@ == s && c.wf()),
{
    let mut c = NoteCollection::new();
    let n = records.len();
    let mut i: usize = 0;
    proof {
        assert(rec_views(records@).subrange(0, 0) =~= Seq::<NoteV>::empty());
    }
    while i < n
        invariant
            0 <= i <= n,
            n == records@.len(),
            spec_load(rec_views(records@).subrange(0, i as int)) == Some(c@),
            c.wf(),
        decreases n - i,
    {
        let ghost sub1 = rec_views(records@).subrange(0, i + 1);
        proof {
            assert(sub1.drop_last() =~= rec_views(records@).subrange(0, i as int));
            assert(sub1.last() == rec_views(records@)[i as int]);
            assert(rec_views(records@)[i as int] == records@[i as int]@);
        }
        let t = match parse_timestamp(records[i].last_accessed.as_str()) {
            Ok(t) => t,
            Err(_) => {
                proof {
                    assert(spec_entry_of(rec_views(records@)[i as int]) is None);
                    assert(spec_load(sub1) is None);
                    lemma_spec_load_none_extends(rec_views(records@), i + 1);
                }
                return Err(TrackerError::ParseError);
            },
        };
        let e = NoteEntry {
            name: records[i].name.clone(),
            freq: records[i].freq,
            last_reviewed: t,
        };
        proof {
            assert(spec_entry_of(rec_views(records@)[i as int]) == Some(e@));
        }
        let ghost acc = c@;
        let ghost ev = e@;
        insert_note(&mut c, e);
        proof {
            assert(spec_load(sub1) == Some(upsert(acc, ev)));
            assert(c@ == upsert(acc, ev));
        }
        i += 1;
    }
    proof {
        assert(rec_views(records@).subrange(0, n as int) =~= rec_views(records@));
    }
    Ok(c)
}

/// Renders the collection back into stored records, one per note, in
/// the collection's order.  An instant the stored format cannot hold
/// refuses the whole save as [`TrackerError::DateTimeFormatting`].
pub fn save_map(c: &NoteCollection) -> (r: Result<Vec<Note>, TrackerError>)
    ensures
        r matches Ok(v) ==> (v@.len() == c@.len() && forall|i: int|
            0 <= i < c@.len() ==> ((#[trigger] rec_views(v@)[i]).name == c@[i].name && rec_views(
                v@,
            )[i].freq == c@[i].freq && ts_store(c@[i].last.secs as int, c@[i].last.nanos as int)
                == Some(rec_views(v@)[i].last_accessed))),
        r is Err ==> (r == Err::<Vec<Note>, TrackerError>(TrackerError::DateTimeFormatting)
            && exists|i: int|
            0 <= i < c@.len() && ts_store(
                (#[trigger] c@[i]).last.secs as int,
                c@[i].last.nanos as int,
            ) is None),
{
    let mut out: Vec<Note> = Vec::new();
    let n = c.notes.len();
    let mut i: usize = 0;
    while i < n
        invariant
            0 <= i <= n,
            n == c.notes@.len(),
            out@.len() == i,
            forall|t: int|
                0 <= t < i ==> ((#[trigger] rec_views(out@)[t]).name == c@[t].name && rec_views(
                    out@,
                )[t].freq == c@[t].freq && ts_store(c@[t].last.secs as int, c@[t].last.nanos as int)
                    == Some(rec_views(out@)[t].last_accessed)),
        decreases n - i,
    {
        proof {
            assert(c@[i as int] == c.notes@[i as int]@);
        }
        let txt = match store_timestamp(&c.notes[i].last_reviewed) {
            Ok(txt) => txt,
            Err(_) => {
                return Err(TrackerError::DateTimeFormatting);
            },
        };
        let ghost pre = out@;
        out.push(Note { name: c.notes[i].name.clone(), freq: c.notes[i].freq, last_accessed: txt });
        proof {
            assert forall|t: int| 0 <= t < i + 1 implies ((#[trigger] rec_views(out@)[t]).name
                == c@[t].name && rec_views(out@)[t].freq == c@[t].freq && ts_store(
                c@[t].last.secs as int,
                c@[t].last.nanos as int,
            ) == Some(rec_views(out@)[t].last_accessed)) by {
                assert(rec_views(out@)[t] == out@[t]@);
                if t < i {
                    assert(out@[t] == pre[t]);
                    assert(rec_views(pre)[t] == pre[t]@);
                }
            }
        }
        i += 1;
    }
    Ok(out)
}


/// The lowercase folding of a name's characters.
pub uninterp spec fn lower_of(s: Seq<char>) -> Seq<char>;

/// Relies on str::to_lowercase: the result depends on the characters
/// alone.
#[verifier::external_body]
fn lowercase(s: &str) -> (r: String)
    ensures
        r@ == lower_of(s@),
{
    s.to_lowercase()
}

/// Finds the stored name that matches `name` up to case, preferring
/// the earliest note; yields nothing when no note matches.
pub fn find_note_name(name: &str, c: &NoteCollection) -> (r: Option<String>)
    ensures
        r matches Some(found) ==> exists|i: int|
            0 <= i < c@.len() && lower_of((#[trigger] c@[i]).name) == lower_of(name@) && found@
                == c@[i].name && (forall|t: int|
                0 <= t < i ==> lower_of((#[trigger] c@[t]).name) != lower_of(name@)),
        r is None ==> forall|i: int|
            0 <= i < c@.len() ==> lower_of((#[trigger] c@[i]).name) != lower_of(name@),
{
    let target = lowercase(name);
    let n = c.notes.len();
    let mut i: usize = 0;
    while i < n
        invariant
            0 <= i <= n,
            n == c.notes@.len(),
            target@ == lower_of(name@),
            forall|t: int| 0 <= t < i ==> lower_of((#[trigger] c@[t]).name) != lower_of(name@),
        decreases n - i,
    {
        proof {
            assert(c@[i as int] == c.notes@[i as int]@);
        }
        let low = lowercase(c.notes[i].name.as_str());
        if low == target {
            let found = c.notes[i].name.clone();
            proof {
                assert(lower_of(c@[i as int].name) == lower_of(name@));
                assert(found@ == c@[i as int].name);
            }
            return Some(found);
        }
        i += 1;
    }
    None
}

/// Removes the earliest note whose name matches `name` up to case,
/// yielding the removed note; an unmatched name leaves the collection
/// untouched and yields nothing.
pub fn remove_note(c: &mut NoteCollection, name: &str) -> (r: Option<NoteEntry>)
    requires
        old(c).wf(),
    ensures
        r matches Some(e) ==> exists|i: int|
            0 <= i < old(c)@.len() && lower_of((#[trigger] old(c)@[i]).name) == lower_of(name@)
                && e@ == old(c)@[i] && final(c)@ == old(c)@.remove(i) && (forall|t: int|
                0 <= t < i ==> lower_of((#[trigger] old(c)@[t]).name) != lower_of(name@)),
        r is None ==> (final(c)@ == old(c)@ && forall|i: int|
            0 <= i < old(c)@.len() ==> lower_of((#[trigger] old(c)@[i]).name) != lower_of(name@)),
        final(c).wf(),
{
    let target = lowercase(name);
    let ghost pre = c.notes@;
    let n = c.notes.len();
    let mut i: usize = 0;
    while i < n
        invariant
            0 <= i <= n,
            n == c.notes@.len(),
            c.notes@ == pre,
            views_of(pre) == old(c)@,
            old(c).wf(),
            target@ == lower_of(name@),
            forall|t: int|
                0 <= t < i ==> lower_of((#[trigger] old(c)@[t]).name) != lower_of(name@),
        decreases n - i,
    {
        proof {
            assert(old(c)@[i as int] == pre[i as int]@);
        }
        let low = lowercase(c.notes[i].name.as_str());
        if low == target {
            let e = c.notes.remove(i);
            proof {
                assert(e@ == old(c)@[i as int]);
                assert(views_of(c.notes@) =~= old(c)@.remove(i as int)) by {
                    assert forall|t: int|
                        0 <= t < c.notes@.len() implies views_of(c.notes@)[t] == old(c)@.remove(
                        i as int,
                    )[t] by {
                        assert(views_of(c.notes@)[t] == c.notes@[t]@);
                        if t < i {
                            assert(c.notes@[t] == pre[t]);
                        } else {
                            assert(c.notes@[t] == pre[t + 1]);
                        }
                    }
                }
                let ghost fin = old(c)@.remove(i as int);
                assert forall|a: int, b: int|
                    0 <= a < b < fin.len() implies fin[a].name != fin[b].name by {
                    let a0 = if a < i { a } else { a + 1 };
                    let b0 = if b < i { b } else { b + 1 };
                    assert(fin[a] == old(c)@[a0]);
                    assert(fin[b] == old(c)@[b0]);
                }
                assert forall|a: int| 0 <= a < fin.len() implies (#[trigger] fin[a]).last.wf() by {
                    let a0 = if a < i { a } else { a + 1 };
                    assert(fin[a] == old(c)@[a0]);
                    assert(old(c)@[a0].last.wf());
                }
            }
            return Some(e);
        }
        i += 1;
    }
    None
}

/// The notes after registering a run of names, each prefixed, as new
/// notes with a fresh counter and `now` as their instant; an existing
/// note of the same exact name is replaced.
pub open spec fn spec_add_all(
    s: Seq<NoteEntryV>,
    prefix: Seq<char>,
    names: Seq<Seq<char>>,
    now: Timestamp,
) -> Seq<NoteEntryV>
    decreases names.len(),
{
    if names.len() == 0 {
        s
    } else {
        spec_add_all(
            upsert(s, NoteEntryV { name: prefix + names[0], freq: 0, last: now }),
            prefix,
            names.drop_first(),
            now,
        )
    }
}

/// Registers each given name, with the prefix put in front, as a new
/// note with a zero counter and `now` as its instant; a note already
/// bearing such a name is replaced.
pub fn add_notes_with_prefix(
    c: &mut NoteCollection,
    prefix: &str,
    names: &Vec<String>,
    now: Timestamp,
)
    requires
        old(c).wf(),
        now.wf(),
    ensures
        final(c)@ == spec_add_all(old(c)@, prefix@, names.deep_view(), now),
        final(c).wf(),
{
    let ghost dv = names.deep_view();
    let ghost target = spec_add_all(old(c)@, prefix@, dv, now);
    let n = names.len();
    let mut j: usize = 0;
    proof {
        assert(dv.skip(0) =~= dv);
    }
    while j < n
        invariant
            0 <= j <= n,
            n == names@.len(),
            dv == names.deep_view(),
            now.wf(),
            c.wf(),
            spec_add_all(c@, prefix@, dv.skip(j as int), now) == target,
        decreases n - j,
    {
        let mut full = prefix.to_owned();
        full.append(names[j].as_str());
        proof {
            assert(names.deep_view()[j as int] == names@[j as int]@);
            assert(full@ == prefix@ + dv[j as int]);
        }
        let e = NoteEntry { name: full, freq: 0, last_reviewed: now };
        let ghost ev = e@;
        let ghost acc = c@;
        insert_note(c, e);
        proof {
            let ghost rest = dv.skip(j as int);
            assert(rest[0] == dv[j as int]);
            assert(rest.drop_first() =~= dv.skip(j as int + 1));
            assert(ev == NoteEntryV { name: prefix@ + rest[0], freq: 0, last: now });
            assert(spec_add_all(acc, prefix@, rest, now) == spec_add_all(
                upsert(acc, ev),
                prefix@,
                dv.skip(j as int + 1),
                now,
            ));
        }
        j += 1;
    }
    proof {
        assert(dv.skip(n as int).len() == 0);
    }
}

} // verus!
