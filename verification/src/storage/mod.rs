//! Stored note records and note-name ingestion.
//!
//! A [`Note`] is the flat keyed record the store holds: a unique name, a
//! review counter, and the last-reviewed instant serialized as text.
//! Reading and writing the store itself is the I/O layer's job; this
//! module also extracts note names from the lines of ingested files.

pub mod settings;

use vstd::prelude::*;
use vstd::string::StrSliceExecFns;

verus! {

/// Storage-side failures.  Faults of the underlying file and JSON
/// libraries belong to the I/O layer; the engine only ever reports that
/// a file was not usable.
#[derive(Clone, Copy, Debug, PartialEq, Eq, Structural)]
pub enum StorageError {
    /// A file was missing or could not be created.
    File,
}

/// The mathematical shape of a stored record: the characters of its
/// name and serialized timestamp, and its counter.
pub ghost struct NoteV {
    pub name: Seq<char>,
    pub freq: u16,
    pub last_accessed: Seq<char>,
}

/// A stored note record: unique name, review counter, and the
/// last-reviewed instant in its serialized text form.
#[derive(Debug)]
pub struct Note {
    pub name: String,
    pub freq: u16,
    pub last_accessed: String,
}

impl View for Note {
    type V = NoteV;

    open spec fn view(&self) -> NoteV {
        NoteV { name: self.name@, freq: self.freq, last_accessed: self.last_accessed@ }
    }
}

impl Clone for Note {
    fn clone(&self) -> (r: Self)
        ensures
            r == *self,
    {
        Note {
            name: self.name.clone(),
            freq: self.freq,
            last_accessed: self.last_accessed.clone(),
        }
    }
}

impl Note {
    /// Builds a record from its three fields.
    pub fn new(name: String, freq: u16, last_accessed: String) -> (r: Self)
        ensures
            r.name == name,
            r.freq == freq,
            r.last_accessed == last_accessed,
    {
        Self { name, freq, last_accessed }
    }
}

/// The fixed path of the note store.
pub fn get_json_path() -> (r: String)
    ensures
        r@ == "notes.json"@,
{
    proof {
        reveal_strlit("notes.json");
    }
    "notes.json".to_owned()
}


/// The length of the run of `ch` at the head of `s`.
pub open spec fn count_run(s: Seq<char>, ch: char) -> int
    decreases s.len(),
{
    if s.len() == 0 || s[0] != ch {
        0
    } else {
        1 + count_run(s.drop_first(), ch)
    }
}

/// A head run of `i` copies of `ch`, ended by the sequence's end or a
/// different character, has length exactly `i`.
proof fn lemma_count_run(s: Seq<char>, ch: char, i: int)
    requires
        0 <= i <= s.len(),
        forall|t: int| 0 <= t < i ==> s[t] == ch,
        i == s.len() || s[i] != ch,
    ensures
        count_run(s, ch) == i,
    decreases i,
{
    if i == 0 {
    } else {
        let s1 = s.drop_first();
        assert(s[0] == ch);
        assert forall|t: int| 0 <= t < i - 1 implies s1[t] == ch by {
            assert(s1[t] == s[t + 1]);
        }
        assert(i - 1 == s1.len() || s1[i - 1] != ch);
        lemma_count_run(s1, ch, i - 1);
    }
}

/// The note name a markdown line yields: after any leading spaces, a
/// run of hashes no longer than `min_hashes`, then one space, then the
/// name; a line that ends right after its hashes yields an empty name;
/// anything else yields nothing.
pub open spec fn spec_header_name(line: Seq<char>, min_hashes: int) -> Option<Seq<char>> {
    let sp = count_run(line, ' ');
    if sp == line.len() {
        None
    } else if line[sp] != '#' {
        None
    } else {
        let h = count_run(line.skip(sp), '#');
        if sp + h == line.len() {
            Some(Seq::<char>::empty())
        } else if line[sp + h] == ' ' && h <= min_hashes {
            Some(line.skip(sp + h + 1))
        } else {
            None
        }
    }
}

/// Reads a note name out of one markdown header line, if the line is
/// one: headers deeper than `min_hashes` hashes are passed over.
pub fn parse_markdown_headers_from_line(line: &str, min_hashes: usize) -> (r: Option<String>)
    ensures
        spec_header_name(line@, min_hashes as int) matches Some(nm) ==> (r matches Some(out)
            && out@ == nm),
        spec_header_name(line@, min_hashes as int) is None ==> r is None,
{
    let n = line.unicode_len();
    let mut i: usize = 0;
    while i < n && line.get_char(i) == ' '
        invariant
            0 <= i <= n,
            n == line@.len(),
            forall|t: int| 0 <= t < i ==> line@[t] == ' ',
        decreases n - i,
    {
        i += 1;
    }
    proof {
        lemma_count_run(line@, ' ', i as int);
    }
    if i == n {
        return None;
    }
    if line.get_char(i) != '#' {
        return None;
    }
    let start = i;
    while i < n && line.get_char(i) == '#'
        invariant
            start <= i <= n,
            n == line@.len(),
            forall|t: int| start <= t < i ==> line@[t] == '#',
        decreases n - i,
    {
        i += 1;
    }
    proof {
        let tail = line@.skip(start as int);
        assert forall|t: int| 0 <= t < i - start implies tail[t] == '#' by {
            assert(tail[t] == line@[start + t]);
        }
        if i < n {
            assert(tail[i - start] == line@[i as int]);
        }
        lemma_count_run(tail, '#', i - start);
    }
    if i == n {
        let out = String::new();
        proof {
            assert(out@ =~= Seq::<char>::empty());
        }
        return Some(out);
    }
    if line.get_char(i) == ' ' && i - start <= min_hashes {
        let rest = line.substring_char(i + 1, n);
        proof {
            assert(rest@ =~= line@.skip(i as int + 1));
        }
        Some(rest.to_owned())
    } else {
        None
    }
}

/// The whitespace-trimmed form of a line's characters.
pub uninterp spec fn trim_of(s: Seq<char>) -> Seq<char>;

/// Relies on str::trim: the result depends on the characters alone.
#[verifier::external_body]
fn trim_str(s: &str) -> (r: &str)
    ensures
        r@ == trim_of(s@),
{
    s.trim()
}

/// The note names a run of plain-text lines yields: each line trimmed,
/// blank lines dropped, order kept.
pub open spec fn spec_note_names(lines: Seq<Seq<char>>) -> Seq<Seq<char>>
    decreases lines.len(),
{
    if lines.len() == 0 {
        Seq::<Seq<char>>::empty()
    } else {
        let rest = spec_note_names(lines.drop_first());
        if trim_of(lines[0]).len() == 0 {
            rest
        } else {
            seq![trim_of(lines[0])] + rest
        }
    }
}

/// Note names from the lines of a note-list file: one name per
/// non-blank line, trimmed.  Reading the file belongs to the I/O
/// layer, which hands the lines in.
pub fn get_note_names_from_file(lines: &Vec<String>) -> (r: Vec<String>)
    ensures
        r.deep_view() == spec_note_names(lines.deep_view()),
{
    let ghost dv = lines.deep_view();
    let ghost target = spec_note_names(dv);
    let n = lines.len();
    let mut out: Vec<String> = Vec::new();
    let mut i: usize = 0;
    proof {
        assert(dv.skip(0) =~= dv);
        assert(out.deep_view() =~= Seq::<Seq<char>>::empty());
        assert(out.deep_view() + spec_note_names(dv.skip(0)) =~= target);
    }
    while i < n
        invariant
            0 <= i <= n,
            n == lines@.len(),
            dv == lines.deep_view(),
            out.deep_view() + spec_note_names(dv.skip(i as int)) == target,
        decreases n - i,
    {
        let ghost rest = dv.skip(i as int);
        proof {
            assert(rest[0] == dv[i as int]);
            assert(dv[i as int] == lines@[i as int]@);
            assert(rest.drop_first() =~= dv.skip(i as int + 1));
        }
        let trimmed = trim_str(lines[i].as_str());
        if !trimmed.is_empty() {
            let ghost pre = out.deep_view();
            out.push(trimmed.to_owned());
            proof {
                assert(out.deep_view() =~= pre.push(trim_of(rest[0]))) by {
                    assert forall|t: int|
                        0 <= t < out@.len() implies out.deep_view()[t] == pre.push(
                        trim_of(rest[0]),
                    )[t] by {
                        assert(out.deep_view()[t] == out@[t]@);
                        if t < pre.len() {
                            assert(pre[t] == out@[t]@);
                        }
                    }
                }
                assert(spec_note_names(rest) == seq![trim_of(rest[0])] + spec_note_names(
                    rest.drop_first(),
                ));
                assert(pre.push(trim_of(rest[0])) + spec_note_names(rest.drop_first()) =~= pre + (
                seq![trim_of(rest[0])] + spec_note_names(rest.drop_first())));
            }
        } else {
            proof {
                assert(spec_note_names(rest) == spec_note_names(rest.drop_first()));
            }
        }
        i += 1;
    }
    proof {
        assert(dv.skip(n as int).len() == 0);
        assert(out.deep_view() + spec_note_names(dv.skip(n as int)) =~= out.deep_view());
    }
    out
}

/// The note names a run of markdown lines yields: one name per header
/// line (trimmed first) of at most `min_hashes` hashes, order kept.
pub open spec fn spec_markdown_names(lines: Seq<Seq<char>>, min_hashes: int) -> Seq<Seq<char>>
    decreases lines.len(),
{
    if lines.len() == 0 {
        Seq::<Seq<char>>::empty()
    } else {
        let rest = spec_markdown_names(lines.drop_first(), min_hashes);
        match spec_header_name(trim_of(lines[0]), min_hashes) {
            Some(nm) => seq![nm] + rest,
            None => rest,
        }
    }
}

/// Note names from the lines of a markdown file: the headers of at
/// most `min_hashes` hashes.  Reading the file belongs to the I/O
/// layer, which hands the lines in.
pub fn get_note_names_from_markdown(lines: &Vec<String>, min_hashes: usize) -> (r: Vec<String>)
    ensures
        r.deep_view() == spec_markdown_names(lines.deep_view(), min_hashes as int),
{
    let ghost dv = lines.deep_view();
    let ghost target = spec_markdown_names(dv, min_hashes as int);
    let n = lines.len();
    let mut out: Vec<String> = Vec::new();
    let mut i: usize = 0;
    proof {
        assert(dv.skip(0) =~= dv);
        assert(out.deep_view() =~= Seq::<Seq<char>>::empty());
        assert(out.deep_view() + spec_markdown_names(dv.skip(0), min_hashes as int) =~= target);
    }
    while i < n
        invariant
            0 <= i <= n,
            n == lines@.len(),
            dv == lines.deep_view(),
            out.deep_view() + spec_markdown_names(dv.skip(i as int), min_hashes as int) == target,
        decreases n - i,
    {
        let ghost rest = dv.skip(i as int);
        proof {
            assert(rest[0] == dv[i as int]);
            assert(dv[i as int] == lines@[i as int]@);
            assert(rest.drop_first() =~= dv.skip(i as int + 1));
        }
        let trimmed = trim_str(lines[i].as_str());
        let parsed = parse_markdown_headers_from_line(trimmed, min_hashes);
        match parsed {
            Some(nm) => {
                let ghost nmv = nm@;
                let ghost pre = out.deep_view();
                out.push(nm);
                proof {
                    assert(out.deep_view() =~= pre.push(nmv)) by {
                        assert forall|t: int|
                            0 <= t < out@.len() implies out.deep_view()[t] == pre.push(nmv)[t] by {
                            assert(out.deep_view()[t] == out@[t]@);
                            if t < pre.len() {
                                assert(pre[t] == out@[t]@);
                            }
                        }
                    }
                    assert(spec_markdown_names(rest, min_hashes as int) == seq![nmv]
                        + spec_markdown_names(rest.drop_first(), min_hashes as int));
                    assert(pre.push(nmv) + spec_markdown_names(rest.drop_first(), min_hashes as int)
                        =~= pre + (seq![nmv] + spec_markdown_names(
                        rest.drop_first(),
                        min_hashes as int,
                    )));
                }
            },
            None => {
                proof {
                    assert(spec_header_name(trim_of(rest[0]), min_hashes as int) is None);
                    assert(spec_markdown_names(rest, min_hashes as int) == spec_markdown_names(
                        rest.drop_first(),
                        min_hashes as int,
                    ));
                }
            },
        }
        i += 1;
    }
    proof {
        assert(dv.skip(n as int).len() == 0);
        assert(out.deep_view() + spec_markdown_names(dv.skip(n as int), min_hashes as int)
            =~= out.deep_view());
    }
    out
}

} // verus!
