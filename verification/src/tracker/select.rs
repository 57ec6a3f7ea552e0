//! Review selection: deterministic rankings of notes by neglect.
//!
//! Notes are ranked twice — by review counter, and by last-reviewed
//! instant — with ties broken by name, so the outcome never depends on
//! the order the collection happens to hold its notes in.  The
//! least-reviewed ranking keeps its first `k` notes; the oldest ranking
//! is then walked, skipping names already taken, until it too has
//! yielded its quota.

use vstd::prelude::*;
use vstd::relations::sorted_by;
use vstd::string::StrSliceExecFns;

use super::{NoteEntry, NoteEntryV, NoteCollection, views_of, name_in, contains_name};

verus! {

/// Lexicographic order on names: by code point, a prefix before its
/// extensions.
pub open spec fn name_le(a: Seq<char>, b: Seq<char>) -> bool
    decreases a.len(),
{
    if a.len() == 0 {
        true
    } else if b.len() == 0 {
        false
    } else if a[0] != b[0] {
        (a[0] as int) < (b[0] as int)
    } else {
        name_le(a.drop_first(), b.drop_first())
    }
}

/// Any two names compare one way or the other.
pub proof fn lemma_name_le_total(a: Seq<char>, b: Seq<char>)
    ensures
        name_le(a, b) || name_le(b, a),
    decreases a.len(),
{
    if a.len() == 0 || b.len() == 0 {
    } else if a[0] != b[0] {
    } else {
        lemma_name_le_total(a.drop_first(), b.drop_first());
    }
}

/// The name order is transitive.
pub proof fn lemma_name_le_trans(a: Seq<char>, b: Seq<char>, c: Seq<char>)
    requires
        name_le(a, b),
        name_le(b, c),
    ensures
        name_le(a, c),
    decreases a.len(),
{
    if a.len() == 0 {
    } else if b.len() == 0 {
    } else if c.len() == 0 {
    } else {
        if a[0] == b[0] && b[0] == c[0] {
            lemma_name_le_trans(a.drop_first(), b.drop_first(), c.drop_first());
        }
    }
}

/// Lexicographic order on names, executable form.
pub fn str_le(a: &String, b: &String) -> (r: bool)
    ensures
        r == name_le(a@, b@),
{
    let la = a.as_str().unicode_len();
    let lb = b.as_str().unicode_len();
    let mut i: usize = 0;
    proof {
        assert(a@.skip(0) =~= a@);
        assert(b@.skip(0) =~= b@);
    }
    while i < la && i < lb
        invariant
            la == a@.len(),
            lb == b@.len(),
            0 <= i <= la,
            0 <= i <= lb,
            name_le(a@, b@) == name_le(a@.skip(i as int), b@.skip(i as int)),
        decreases la - i,
    {
        let ca = a.as_str().get_char(i);
        let cb = b.as_str().get_char(i);
        if ca != cb {
            proof {
                assert(a@.skip(i as int)[0] == a@[i as int]);
                assert(b@.skip(i as int)[0] == b@[i as int]);
            }
            return (ca as u32) < (cb as u32);
        }
        proof {
            assert(a@.skip(i as int)[0] == a@[i as int]);
            assert(b@.skip(i as int)[0] == b@[i as int]);
            assert(a@.skip(i as int).drop_first() =~= a@.skip(i as int + 1));
            assert(b@.skip(i as int).drop_first() =~= b@.skip(i as int + 1));
        }
        i += 1;
    }
    proof {
        if i >= la {
            assert(a@.skip(i as int).len() == 0);
        } else {
            assert(b@.skip(i as int).len() == 0);
            assert(a@.skip(i as int).len() != 0);
        }
    }
    la <= lb
}

/// The two ranking criteria, and the alphabetic order a display layer
/// may ask for.
#[derive(Clone, Copy, Debug, PartialEq, Eq, Structural)]
pub enum SortKey {
    Freq,
    Time,
    Name,
}

/// Ascending review counter, ties broken by name.
pub open spec fn freq_le(a: NoteEntryV, b: NoteEntryV) -> bool {
    a.freq < b.freq || (a.freq == b.freq && name_le(a.name, b.name))
}

/// Ascending last-reviewed instant (oldest first), ties broken by name.
pub open spec fn time_le(a: NoteEntryV, b: NoteEntryV) -> bool {
    a.last.spec_lt(b.last) || (a.last == b.last && name_le(a.name, b.name))
}

/// Ascending name.
pub open spec fn name_order(a: NoteEntryV, b: NoteEntryV) -> bool {
    name_le(a.name, b.name)
}

/// The order a ranking key denotes.
pub open spec fn key_le(k: SortKey, a: NoteEntryV, b: NoteEntryV) -> bool {
    match k {
        SortKey::Freq => freq_le(a, b),
        SortKey::Time => time_le(a, b),
        SortKey::Name => name_order(a, b),
    }
}

/// The order a ranking key denotes, as a function value.
pub open spec fn key_fn(k: SortKey) -> spec_fn(NoteEntryV, NoteEntryV) -> bool {
    |a: NoteEntryV, b: NoteEntryV| key_le(k, a, b)
}

/// A total order relation.
pub open spec fn leq_total(leq: spec_fn(NoteEntryV, NoteEntryV) -> bool) -> bool {
    forall|a: NoteEntryV, b: NoteEntryV| #[trigger] leq(a, b) || #[trigger] leq(b, a)
}

/// A transitive order relation.
pub open spec fn leq_trans(leq: spec_fn(NoteEntryV, NoteEntryV) -> bool) -> bool {
    forall|a: NoteEntryV, b: NoteEntryV, c: NoteEntryV|
        #![trigger leq(a, b), leq(b, c)]
        leq(a, b) && leq(b, c) ==> leq(a, c)
}

/// Every ranking key denotes a total, transitive order.
pub proof fn lemma_key_fn_valid(k: SortKey)
    ensures
        leq_total(key_fn(k)),
        leq_trans(key_fn(k)),
{
    let leq = key_fn(k);
    assert forall|a: NoteEntryV, b: NoteEntryV| #[trigger] leq(a, b) || #[trigger] leq(b, a) by {
        lemma_name_le_total(a.name, b.name);
    }
    assert forall|a: NoteEntryV, b: NoteEntryV, c: NoteEntryV|
        #![trigger leq(a, b), leq(b, c)]
        leq(a, b) && leq(b, c) implies leq(a, c) by {
        if leq(a, b) && leq(b, c) {
            if name_le(a.name, b.name) && name_le(b.name, c.name) {
                lemma_name_le_trans(a.name, b.name, c.name);
            }
        }
    }
}

/// `e` put into its place in the (sorted) run `s`: before the first
/// element it compares at-or-below.
pub open spec fn insert_sorted(
    e: NoteEntryV,
    s: Seq<NoteEntryV>,
    leq: spec_fn(NoteEntryV, NoteEntryV) -> bool,
) -> Seq<NoteEntryV>
    decreases s.len(),
{
    if s.len() == 0 {
        seq![e]
    } else if leq(e, s[0]) {
        seq![e] + s
    } else {
        seq![s[0]] + insert_sorted(e, s.drop_first(), leq)
    }
}

/// The run `s` sorted by `leq`, by repeated insertion.
pub open spec fn insertion_sort(
    s: Seq<NoteEntryV>,
    leq: spec_fn(NoteEntryV, NoteEntryV) -> bool,
) -> Seq<NoteEntryV>
    decreases s.len(),
{
    if s.len() == 0 {
        Seq::<NoteEntryV>::empty()
    } else {
        insert_sorted(s.last(), insertion_sort(s.drop_last(), leq), leq)
    }
}

/// Inserting into a sorted run keeps it sorted, adds one element, and
/// holds exactly the old elements plus the new one.
pub proof fn lemma_insert_sorted_props(
    e: NoteEntryV,
    s: Seq<NoteEntryV>,
    leq: spec_fn(NoteEntryV, NoteEntryV) -> bool,
)
    requires
        sorted_by(s, leq),
        leq_total(leq),
        leq_trans(leq),
    ensures
        insert_sorted(e, s, leq).len() == s.len() + 1,
        sorted_by(insert_sorted(e, s, leq), leq),
        forall|x: NoteEntryV|
            #[trigger] insert_sorted(e, s, leq).contains(x) <==> (s.contains(x) || x == e),
    decreases s.len(),
{
    let r = insert_sorted(e, s, leq);
    if s.len() == 0 {
        assert forall|x: NoteEntryV| #[trigger] r.contains(x) implies (s.contains(x) || x == e) by {
            assert(r[0] == e);
        }
        assert(r.contains(e)) by {
            assert(r[0] == e);
        }
    } else if leq(e, s[0]) {
        assert forall|i: int, j: int| 0 <= i < j < r.len() implies leq(r[i], r[j]) by {
            if i == 0 {
                assert(leq(e, s[0]));
                if j > 1 {
                    assert(leq(s[0], s[j - 1]));
                }
            } else {
                assert(leq(s[i - 1], s[j - 1]));
            }
        }
        assert forall|x: NoteEntryV| #[trigger] r.contains(x) implies (s.contains(x) || x == e) by {
            let w = choose|w: int| 0 <= w < r.len() && r[w] == x;
            if w > 0 {
                assert(s[w - 1] == x);
            }
        }
        assert forall|x: NoteEntryV| s.contains(x) || x == e implies #[trigger] r.contains(x) by {
            if x == e {
                assert(r[0] == x);
            } else {
                let w = choose|w: int| 0 <= w < s.len() && s[w] == x;
                assert(r[w + 1] == x);
            }
        }
    } else {
        let s1 = s.drop_first();
        assert(leq(s[0], e));
        assert forall|i: int, j: int| 0 <= i < j < s1.len() implies leq(s1[i], s1[j]) by {
            assert(leq(s[i + 1], s[j + 1]));
        }
        lemma_insert_sorted_props(e, s1, leq);
        let r1 = insert_sorted(e, s1, leq);
        assert forall|i: int, j: int| 0 <= i < j < r.len() implies leq(r[i], r[j]) by {
            if i == 0 {
                assert(r[j] == r1[j - 1]);
                assert(r1.contains(r1[j - 1]));
                if r1[j - 1] == e {
                    assert(leq(s[0], e));
                } else {
                    assert(s1.contains(r1[j - 1]));
                    let w = choose|w: int| 0 <= w < s1.len() && s1[w] == r1[j - 1];
                    assert(leq(s[0], s[w + 1]));
                }
            } else {
                assert(r[i] == r1[i - 1]);
                assert(r[j] == r1[j - 1]);
            }
        }
        assert forall|x: NoteEntryV| #[trigger] r.contains(x) implies (s.contains(x) || x == e) by {
            let w = choose|w: int| 0 <= w < r.len() && r[w] == x;
            if w == 0 {
                assert(s[0] == x);
            } else {
                assert(r1[w - 1] == x);
                assert(r1.contains(x));
                if x != e {
                    assert(s1.contains(x));
                    let w2 = choose|w2: int| 0 <= w2 < s1.len() && s1[w2] == x;
                    assert(s[w2 + 1] == x);
                }
            }
        }
        assert forall|x: NoteEntryV| s.contains(x) || x == e implies #[trigger] r.contains(x) by {
            if x == e || s1.contains(x) {
                assert(r1.contains(x));
                let w = choose|w: int| 0 <= w < r1.len() && r1[w] == x;
                assert(r[w + 1] == x);
            } else {
                let w = choose|w: int| 0 <= w < s.len() && s[w] == x;
                if w == 0 {
                    assert(r[0] == x);
                } else {
                    assert(s1[w - 1] == x);
                    assert(s1.contains(x));
                }
            }
        }
    }
}

/// Sorting keeps the length, yields a sorted run, and holds exactly
/// the original elements.
pub proof fn lemma_insertion_sort_props(
    s: Seq<NoteEntryV>,
    leq: spec_fn(NoteEntryV, NoteEntryV) -> bool,
)
    requires
        leq_total(leq),
        leq_trans(leq),
    ensures
        insertion_sort(s, leq).len() == s.len(),
        sorted_by(insertion_sort(s, leq), leq),
        forall|x: NoteEntryV| #[trigger] insertion_sort(s, leq).contains(x) <==> s.contains(x),
    decreases s.len(),
{
    let r = insertion_sort(s, leq);
    if s.len() == 0 {
        assert forall|x: NoteEntryV| #[trigger] r.contains(x) implies s.contains(x) by {
            assert(false);
        }
    } else {
        let s0 = s.drop_last();
        lemma_insertion_sort_props(s0, leq);
        lemma_insert_sorted_props(s.last(), insertion_sort(s0, leq), leq);
        assert forall|x: NoteEntryV| #[trigger] r.contains(x) implies s.contains(x) by {
            if x == s.last() {
                assert(s[s.len() - 1] == x);
            } else {
                assert(s0.contains(x));
                let w = choose|w: int| 0 <= w < s0.len() && s0[w] == x;
                assert(s[w] == x);
            }
        }
        assert forall|x: NoteEntryV| s.contains(x) implies #[trigger] r.contains(x) by {
            let w = choose|w: int| 0 <= w < s.len() && s[w] == x;
            if w == s.len() - 1 {
                assert(r.contains(s.last()));
            } else {
                assert(s0[w] == x);
                assert(s0.contains(x));
            }
        }
    }
}

/// Inserting before position `idx` — no earlier element admits `e`,
/// the element at `idx` (if any) does — is insertion at `idx`.
pub proof fn lemma_insert_sorted_at(
    e: NoteEntryV,
    s: Seq<NoteEntryV>,
    leq: spec_fn(NoteEntryV, NoteEntryV) -> bool,
    idx: int,
)
    requires
        0 <= idx <= s.len(),
        forall|t: int| 0 <= t < idx ==> !leq(e, #[trigger] s[t]),
        idx < s.len() ==> leq(e, s[idx]),
    ensures
        insert_sorted(e, s, leq) == s.insert(idx, e),
    decreases idx,
{
    if idx == 0 {
        if s.len() == 0 {
            assert(insert_sorted(e, s, leq) =~= s.insert(0, e));
        } else {
            assert(leq(e, s[0]));
            assert(insert_sorted(e, s, leq) =~= s.insert(0, e));
        }
    } else {
        let s1 = s.drop_first();
        assert(!leq(e, s[0]));
        assert forall|t: int| 0 <= t < idx - 1 implies !leq(e, #[trigger] s1[t]) by {
            assert(s1[t] == s[t + 1]);
        }
        lemma_insert_sorted_at(e, s1, leq, idx - 1);
        assert(insert_sorted(e, s, leq) == seq![s[0]] + s1.insert(idx - 1, e));
        assert(seq![s[0]] + s1.insert(idx - 1, e) =~= s.insert(idx, e));
    }
}

/// Compares two notes under a ranking key.
fn entry_le(k: SortKey, a: &NoteEntry, b: &NoteEntry) -> (r: bool)
    ensures
        r == key_le(k, a@, b@),
{
    match k {
        SortKey::Freq => {
            if a.freq != b.freq {
                a.freq < b.freq
            } else {
                str_le(&a.name, &b.name)
            }
        },
        SortKey::Time => {
            if a.last_reviewed.lt(&b.last_reviewed) {
                true
            } else if b.last_reviewed.lt(&a.last_reviewed) {
                false
            } else {
                proof {
                    assert(a.last_reviewed == b.last_reviewed);
                }
                str_le(&a.name, &b.name)
            }
        },
        SortKey::Name => str_le(&a.name, &b.name),
    }
}

/// Sorts the notes by the given key, by insertion.
pub fn sort_entries(v: &Vec<NoteEntry>, k: SortKey) -> (r: Vec<NoteEntry>)
    ensures
        views_of(r@) == insertion_sort(views_of(v@), key_fn(k)),
        sorted_by(views_of(r@), key_fn(k)),
{
    proof {
        lemma_key_fn_valid(k);
    }
    let mut out: Vec<NoteEntry> = Vec::new();
    let mut i: usize = 0;
    proof {
        assert(views_of(v@).subrange(0, 0) =~= Seq::<NoteEntryV>::empty());
        assert(views_of(out@) =~= Seq::<NoteEntryV>::empty());
    }
    while i < v.len()
        invariant
            0 <= i <= v@.len(),
            out@.len() == i,
            views_of(out@) == insertion_sort(views_of(v@).subrange(0, i as int), key_fn(k)),
            sorted_by(views_of(out@), key_fn(k)),
        decreases v@.len() - i,
    {
        let e = v[i].clone();
        let ghost ev = e@;
        let ghost pre = out@;
        proof {
            assert(ev == views_of(v@)[i as int]);
        }
        let mut j: usize = 0;
        while j < out.len() && !entry_le(k, &e, &out[j])
            invariant
                out@ == pre,
                0 <= j <= out@.len(),
                forall|t: int|
                    0 <= t < j ==> !key_fn(k)(ev, #[trigger] views_of(out@)[t]),
                e@ == ev,
            decreases out@.len() - j,
        {
            j += 1;
        }
        proof {
            lemma_key_fn_valid(k);
            if j < out@.len() {
                assert(key_fn(k)(ev, views_of(out@)[j as int]));
            }
            lemma_insert_sorted_at(ev, views_of(out@), key_fn(k), j as int);
            lemma_insert_sorted_props(ev, views_of(out@), key_fn(k));
        }
        out.insert(j, e);
        proof {
            assert(views_of(out@) =~= views_of(pre).insert(j as int, ev)) by {
                pre.insert_ensures(j as int, e);
                views_of(pre).insert_ensures(j as int, ev);
                assert forall|t: int| 0 <= t < out@.len() implies views_of(out@)[t] == views_of(
                    pre,
                ).insert(j as int, ev)[t] by {
                    assert(views_of(out@)[t] == out@[t]@);
                    if t < j {
                        assert(out@[t] == pre[t]);
                    } else if t == j {
                        assert(out@[t] == e);
                    } else {
                        assert(out@[t] == pre[t - 1]);
                    }
                }
            }
            let ghost sub1 = views_of(v@).subrange(0, i + 1);
            assert(sub1.drop_last() =~= views_of(v@).subrange(0, i as int));
            assert(sub1.last() == ev);
            assert(views_of(pre) == insertion_sort(views_of(v@).subrange(0, i as int), key_fn(k)));
            assert(insertion_sort(sub1.drop_last(), key_fn(k)) == views_of(pre));
            assert(insert_sorted(ev, views_of(pre), key_fn(k)) == views_of(pre).insert(
                j as int,
                ev,
            ));
            assert(views_of(out@) == views_of(pre).insert(j as int, ev));
            assert(sub1.len() != 0);
            assert(views_of(out@) == insertion_sort(sub1, key_fn(k)));
        }
        i += 1;
    }
    proof {
        assert(views_of(v@).subrange(0, v@.len() as int) =~= views_of(v@));
    }
    out
}

/// The first at-most-`k` notes of `t` whose names are not borne by any
/// note of `excl`, in `t`'s order.
pub open spec fn take_excluding(t: Seq<NoteEntryV>, excl: Seq<NoteEntryV>, k: int) -> Seq<
    NoteEntryV,
>
    decreases t.len(),
{
    if t.len() == 0 || k <= 0 {
        Seq::<NoteEntryV>::empty()
    } else if name_in(excl, t[0].name) {
        take_excluding(t.drop_first(), excl, k)
    } else {
        seq![t[0]] + take_excluding(t.drop_first(), excl, k - 1)
    }
}

/// The least-reviewed ranking's first `k` notes (all of them when the
/// collection holds fewer).
pub open spec fn spec_least(s: Seq<NoteEntryV>, k: int) -> Seq<NoteEntryV> {
    let m = if k < 0 {
        0
    } else if k < s.len() {
        k
    } else {
        s.len() as int
    };
    insertion_sort(s, key_fn(SortKey::Freq)).subrange(0, m)
}

/// The oldest ranking's first `k_oldest` notes whose names the
/// least-reviewed list does not already hold.
pub open spec fn spec_oldest(s: Seq<NoteEntryV>, k_least: int, k_oldest: int) -> Seq<NoteEntryV> {
    take_excluding(
        insertion_sort(s, key_fn(SortKey::Time)),
        spec_least(s, k_least),
        k_oldest,
    )
}

/// What the exclusion-filtered take yields: at most `k` notes, each
/// drawn from `t`, none bearing an excluded name.
pub proof fn lemma_take_excluding_props(t: Seq<NoteEntryV>, excl: Seq<NoteEntryV>, k: int)
    ensures
        forall|i: int|
            0 <= i < take_excluding(t, excl, k).len() ==> !name_in(
                excl,
                (#[trigger] take_excluding(t, excl, k)[i]).name,
            ),
        forall|i: int|
            0 <= i < take_excluding(t, excl, k).len() ==> t.contains(
                #[trigger] take_excluding(t, excl, k)[i],
            ),
        take_excluding(t, excl, k).len() <= k || k < 0,
    decreases t.len(),
{
    let r = take_excluding(t, excl, k);
    if t.len() == 0 || k <= 0 {
    } else if name_in(excl, t[0].name) {
        lemma_take_excluding_props(t.drop_first(), excl, k);
        assert forall|i: int| 0 <= i < r.len() implies t.contains(#[trigger] r[i]) by {
            assert(t.drop_first().contains(r[i]));
            let w = choose|w: int| 0 <= w < t.drop_first().len() && t.drop_first()[w] == r[i];
            assert(t[w + 1] == r[i]);
        }
    } else {
        let r1 = take_excluding(t.drop_first(), excl, k - 1);
        lemma_take_excluding_props(t.drop_first(), excl, k - 1);
        assert forall|i: int| 0 <= i < r.len() implies !name_in(excl, (#[trigger] r[i]).name) by {
            if i > 0 {
                assert(r[i] == r1[i - 1]);
            }
        }
        assert forall|i: int| 0 <= i < r.len() implies t.contains(#[trigger] r[i]) by {
            if i == 0 {
                assert(t[0] == r[0]);
            } else {
                assert(r[i] == r1[i - 1]);
                assert(t.drop_first().contains(r1[i - 1]));
                let w = choose|w: int|
                    0 <= w < t.drop_first().len() && t.drop_first()[w] == r1[i - 1];
                assert(t[w + 1] == r[i]);
            }
        }
    }
}

/// The exclusion-filtered take of a sorted run is sorted.
pub proof fn lemma_take_excluding_sorted(
    t: Seq<NoteEntryV>,
    excl: Seq<NoteEntryV>,
    k: int,
    leq: spec_fn(NoteEntryV, NoteEntryV) -> bool,
)
    requires
        sorted_by(t, leq),
        leq_trans(leq),
    ensures
        sorted_by(take_excluding(t, excl, k), leq),
    decreases t.len(),
{
    let r = take_excluding(t, excl, k);
    if t.len() == 0 || k <= 0 {
    } else {
        let t1 = t.drop_first();
        assert forall|i: int, j: int| 0 <= i < j < t1.len() implies leq(t1[i], t1[j]) by {
            assert(leq(t[i + 1], t[j + 1]));
        }
        if name_in(excl, t[0].name) {
            lemma_take_excluding_sorted(t1, excl, k, leq);
        } else {
            lemma_take_excluding_sorted(t1, excl, k - 1, leq);
            let r1 = take_excluding(t1, excl, k - 1);
            lemma_take_excluding_props(t1, excl, k - 1);
            assert forall|i: int, j: int| 0 <= i < j < r.len() implies leq(r[i], r[j]) by {
                if i == 0 {
                    assert(r[j] == r1[j - 1]);
                    assert(t1.contains(r1[j - 1]));
                    let w = choose|w: int| 0 <= w < t1.len() && t1[w] == r1[j - 1];
                    assert(leq(t[0], t[w + 1]));
                } else {
                    assert(r[i] == r1[i - 1]);
                    assert(r[j] == r1[j - 1]);
                }
            }
        }
    }
}

/// Dedup law: whatever the collection and the quotas, no name appears
/// in both lists the selection yields.
pub proof fn lemma_selection_disjoint(s: Seq<NoteEntryV>, k_least: int, k_oldest: int)
    ensures
        forall|i: int, j: int|
            0 <= i < spec_least(s, k_least).len() && 0 <= j < spec_oldest(
                s,
                k_least,
                k_oldest,
            ).len() ==> (#[trigger] spec_least(s, k_least)[i]).name != (#[trigger] spec_oldest(
                s,
                k_least,
                k_oldest,
            )[j]).name,
{
    let least = spec_least(s, k_least);
    let oldest = spec_oldest(s, k_least, k_oldest);
    lemma_take_excluding_props(insertion_sort(s, key_fn(SortKey::Time)), least, k_oldest);
    assert forall|i: int, j: int|
        0 <= i < least.len() && 0 <= j < oldest.len() implies (#[trigger] least[i]).name != (
    #[trigger] oldest[j]).name by {
        assert(!name_in(least, oldest[j].name));
    }
}

/// Ranking law: the least-reviewed list is sorted by review counter
/// with the name tie-break, the oldest list by last-reviewed instant
/// with the name tie-break, and every selected note is a note of the
/// collection.
pub proof fn lemma_selection_sorted(s: Seq<NoteEntryV>, k_least: int, k_oldest: int)
    ensures
        sorted_by(spec_least(s, k_least), key_fn(SortKey::Freq)),
        sorted_by(spec_oldest(s, k_least, k_oldest), key_fn(SortKey::Time)),
        forall|i: int|
            0 <= i < spec_least(s, k_least).len() ==> s.contains(
                #[trigger] spec_least(s, k_least)[i],
            ),
        forall|j: int|
            0 <= j < spec_oldest(s, k_least, k_oldest).len() ==> s.contains(
                #[trigger] spec_oldest(s, k_least, k_oldest)[j],
            ),
{
    lemma_key_fn_valid(SortKey::Freq);
    lemma_key_fn_valid(SortKey::Time);
    let sf = insertion_sort(s, key_fn(SortKey::Freq));
    let st = insertion_sort(s, key_fn(SortKey::Time));
    lemma_insertion_sort_props(s, key_fn(SortKey::Freq));
    lemma_insertion_sort_props(s, key_fn(SortKey::Time));
    let least = spec_least(s, k_least);
    assert forall|i: int, j: int|
        0 <= i < j < least.len() implies key_fn(SortKey::Freq)(least[i], least[j]) by {
        assert(least[i] == sf[i]);
        assert(least[j] == sf[j]);
    }
    assert forall|i: int| 0 <= i < least.len() implies s.contains(#[trigger] least[i]) by {
        assert(least[i] == sf[i]);
        assert(sf.contains(sf[i]));
    }
    lemma_take_excluding_sorted(st, least, k_oldest, key_fn(SortKey::Time));
    lemma_take_excluding_props(st, least, k_oldest);
    let oldest = spec_oldest(s, k_least, k_oldest);
    assert forall|j: int| 0 <= j < oldest.len() implies s.contains(#[trigger] oldest[j]) by {
        assert(st.contains(oldest[j]));
    }
}

/// Nothing survives the exclusion filter once every name is excluded.
proof fn lemma_take_excluding_all_excluded(
    t: Seq<NoteEntryV>,
    excl: Seq<NoteEntryV>,
    k: int,
)
    requires
        forall|i: int| 0 <= i < t.len() ==> name_in(excl, (#[trigger] t[i]).name),
    ensures
        take_excluding(t, excl, k).len() == 0,
    decreases t.len(),
{
    if t.len() == 0 || k <= 0 {
    } else {
        assert(name_in(excl, t[0].name));
        let t1 = t.drop_first();
        assert forall|i: int| 0 <= i < t1.len() implies name_in(
            excl,
            (#[trigger] t1[i]).name,
        ) by {
            assert(t1[i] == t[i + 1]);
        }
        lemma_take_excluding_all_excluded(t1, excl, k);
    }
}

/// Degenerate-case law: a least-reviewed quota at or above the
/// collection's size takes every note into the first list and leaves
/// the second list empty.
pub proof fn lemma_selection_degenerate(s: Seq<NoteEntryV>, k_least: int, k_oldest: int)
    requires
        k_least >= s.len(),
    ensures
        spec_least(s, k_least).len() == s.len(),
        spec_oldest(s, k_least, k_oldest).len() == 0,
{
    lemma_key_fn_valid(SortKey::Freq);
    lemma_key_fn_valid(SortKey::Time);
    lemma_insertion_sort_props(s, key_fn(SortKey::Freq));
    lemma_insertion_sort_props(s, key_fn(SortKey::Time));
    let sf = insertion_sort(s, key_fn(SortKey::Freq));
    let st = insertion_sort(s, key_fn(SortKey::Time));
    let least = spec_least(s, k_least);
    assert(least =~= sf);
    assert forall|i: int| 0 <= i < st.len() implies name_in(
        least,
        (#[trigger] st[i]).name,
    ) by {
        assert(st.contains(st[i]));
        assert(s.contains(st[i]));
        assert(sf.contains(st[i]));
        let w = choose|w: int| 0 <= w < sf.len() && sf[w] == st[i];
        assert(least[w].name == st[i].name);
    }
    lemma_take_excluding_all_excluded(st, least, k_oldest);
}

/// Determinism law: the selection is a function of the collection
/// snapshot and the two quotas alone; two selections from an
/// unmodified collection are identical, list for list.
pub proof fn lemma_selection_deterministic(
    s: Seq<NoteEntryV>,
    k_least: int,
    k_oldest: int,
    least1: Seq<NoteEntryV>,
    oldest1: Seq<NoteEntryV>,
    least2: Seq<NoteEntryV>,
    oldest2: Seq<NoteEntryV>,
)
    requires
        least1 == spec_least(s, k_least),
        oldest1 == spec_oldest(s, k_least, k_oldest),
        least2 == spec_least(s, k_least),
        oldest2 == spec_oldest(s, k_least, k_oldest),
    ensures
        least1 == least2,
        oldest1 == oldest2,
{
}

/// Picks the review batch: the `k_least` least-reviewed notes, then
/// the `k_oldest` longest-neglected notes among those not already
/// picked.  Both lists are ranked deterministically — ties always
/// break by name — so the collection's own order never shows through.
pub fn get_notes_to_review(c: &NoteCollection, k_least: usize, k_oldest: usize) -> (r: (
    Vec<NoteEntry>,
    Vec<NoteEntry>,
))
    requires
        c.wf(),
    ensures
        views_of(r.0@) == spec_least(c@, k_least as int),
        views_of(r.1@) == spec_oldest(c@, k_least as int, k_oldest as int),
{
    let by_freq = sort_entries(&c.notes, SortKey::Freq);
    proof {
        lemma_key_fn_valid(SortKey::Freq);
        lemma_insertion_sort_props(views_of(c.notes@), key_fn(SortKey::Freq));
    }
    let take_n = if k_least < by_freq.len() {
        k_least
    } else {
        by_freq.len()
    };
    let mut uncommon: Vec<NoteEntry> = Vec::new();
    let mut i: usize = 0;
    proof {
        assert(views_of(uncommon@) =~= views_of(by_freq@).subrange(0, 0));
    }
    while i < take_n
        invariant
            0 <= i <= take_n,
            take_n <= by_freq@.len(),
            uncommon@.len() == i,
            views_of(uncommon@) == views_of(by_freq@).subrange(0, i as int),
        decreases take_n - i,
    {
        let e = by_freq[i].clone();
        let ghost pre = uncommon@;
        uncommon.push(e);
        proof {
            assert(views_of(uncommon@) =~= views_of(by_freq@).subrange(0, i + 1)) by {
                assert forall|t: int|
                    0 <= t < i + 1 implies views_of(uncommon@)[t] == views_of(by_freq@).subrange(
                    0,
                    i + 1,
                )[t] by {
                    assert(views_of(uncommon@)[t] == uncommon@[t]@);
                    if t < i {
                        assert(uncommon@[t] == pre[t]);
                        assert(views_of(pre)[t] == pre[t]@);
                    } else {
                        assert(uncommon@[t] == by_freq@[i as int]);
                        assert(views_of(by_freq@)[t] == by_freq@[t]@);
                    }
                }
            }
        }
        i += 1;
    }
    proof {
        assert(views_of(uncommon@) == spec_least(c@, k_least as int));
    }
    let by_time = sort_entries(&c.notes, SortKey::Time);
    let ghost excl = views_of(uncommon@);
    let ghost target = take_excluding(views_of(by_time@), excl, k_oldest as int);
    let mut oldest: Vec<NoteEntry> = Vec::new();
    let mut j: usize = 0;
    proof {
        assert(views_of(by_time@).skip(0) =~= views_of(by_time@));
        assert(views_of(oldest@) =~= Seq::<NoteEntryV>::empty());
        assert(views_of(oldest@) + take_excluding(
            views_of(by_time@).skip(0),
            excl,
            k_oldest as int,
        ) =~= target);
    }
    while j < by_time.len() && oldest.len() < k_oldest
        invariant
            0 <= j <= by_time@.len(),
            oldest@.len() <= k_oldest,
            views_of(uncommon@) == excl,
            views_of(oldest@) + take_excluding(
                views_of(by_time@).skip(j as int),
                excl,
                k_oldest - oldest@.len(),
            ) == target,
        decreases by_time@.len() - j,
    {
        let ghost rest = views_of(by_time@).skip(j as int);
        proof {
            assert(rest.len() == by_time@.len() - j);
            assert(rest[0] == views_of(by_time@)[j as int]);
            assert(views_of(by_time@)[j as int] == by_time@[j as int]@);
            assert(rest.drop_first() =~= views_of(by_time@).skip(j as int + 1));
        }
        let excluded = contains_name(&uncommon, &by_time[j].name);
        if !excluded {
            let ghost pre = oldest@;
            oldest.push(by_time[j].clone());
            proof {
                let ghost kk = k_oldest - pre.len();
                assert(take_excluding(rest, excl, kk) == seq![rest[0]] + take_excluding(
                    rest.drop_first(),
                    excl,
                    kk - 1,
                ));
                assert(views_of(oldest@) =~= views_of(pre).push(rest[0])) by {
                    assert forall|t: int|
                        0 <= t < oldest@.len() implies views_of(oldest@)[t] == views_of(pre).push(
                        rest[0],
                    )[t] by {
                        assert(views_of(oldest@)[t] == oldest@[t]@);
                        if t < pre.len() {
                            assert(oldest@[t] == pre[t]);
                            assert(views_of(pre)[t] == pre[t]@);
                        }
                    }
                }
                assert(views_of(pre).push(rest[0]) + take_excluding(
                    rest.drop_first(),
                    excl,
                    kk - 1,
                ) =~= views_of(pre) + (seq![rest[0]] + take_excluding(rest.drop_first(), excl, kk - 1)));
            }
        } else {
            proof {
                assert(name_in(excl, rest[0].name));
                assert(take_excluding(rest, excl, k_oldest - oldest@.len()) == take_excluding(
                    rest.drop_first(),
                    excl,
                    k_oldest - oldest@.len(),
                ));
            }
        }
        j += 1;
    }
    proof {
        if oldest@.len() < k_oldest {
            assert(j == by_time@.len());
            assert(views_of(by_time@).skip(j as int).len() == 0);
            assert(take_excluding(
                views_of(by_time@).skip(j as int),
                excl,
                k_oldest - oldest@.len(),
            ) =~= Seq::<NoteEntryV>::empty());
        } else {
            assert(take_excluding(
                views_of(by_time@).skip(j as int),
                excl,
                k_oldest - oldest@.len(),
            ) =~= Seq::<NoteEntryV>::empty());
        }
        assert(views_of(oldest@) + Seq::<NoteEntryV>::empty() =~= views_of(oldest@));
        assert(views_of(oldest@) == target);
        assert(target == spec_oldest(c@, k_least as int, k_oldest as int));
    }
    (uncommon, oldest)
}

/// The notes in alphabetic name order, for display.
pub fn notes_sorted_by_name(c: &NoteCollection) -> (r: Vec<NoteEntry>)
    ensures
        views_of(r@) == insertion_sort(c@, key_fn(SortKey::Name)),
        sorted_by(views_of(r@), key_fn(SortKey::Name)),
{
    sort_entries(&c.notes, SortKey::Name)
}

} // verus!
