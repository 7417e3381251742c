//! The directory: the census of stored embeddings, mapping each embedding
//! id and each source file to the block holding it.
//!
//! On disk the directory is a plain text side file, one line per embedding:
//! `<id> <filepath> <block>`.  A filepath containing spaces is persisted
//! as-is but parsed by concatenating the middle fields with no separator —
//! the documented legacy corner of the format, preserved here: parsing the
//! rendered text returns the entries exactly whenever no filepath contains
//! whitespace.

use vstd::prelude::*;

use crate::error::StoreError;
use crate::text::{
    all_digits, concat_words, dec_numeral, dec_value, is_space, join_words, parse_u64_chars,
    render_u64_chars,
    sep_for, split_tokens, string_from_chars, string_to_chars, tokenize, words_view,
};

verus! {

/// One directory line: an embedding id, the file it came from, and the
/// block file that holds it.
#[derive(Debug)]
pub struct DirectoryEntry {
    pub id: u64,
    pub filepath: String,
    pub block: u64,
}

/// Mathematical image of a directory entry.
#[verifier::ext_equal]
pub ghost struct DirEntryV {
    pub id: u64,
    pub filepath: Seq<char>,
    pub block: u64,
}

impl View for DirectoryEntry {
    type V = DirEntryV;

    open spec fn view(&self) -> DirEntryV {
        DirEntryV { id: self.id, filepath: self.filepath@, block: self.block }
    }
}

/// The in-memory directory: the ordered list of its lines.
#[derive(Debug)]
pub struct Directory {
    pub entries: Vec<DirectoryEntry>,
}

/// The entries of a directory, as a sequence of their images.
pub open spec fn entries_view(es: Seq<DirectoryEntry>) -> Seq<DirEntryV> {
    Seq::new(es.len(), |i: int| es[i]@)
}

impl View for Directory {
    type V = Seq<DirEntryV>;

    open spec fn view(&self) -> Seq<DirEntryV> {
        entries_view(self.entries@)
    }
}

/// The block of the first entry carrying `id`.
pub open spec fn block_of_id(ds: Seq<DirEntryV>, id: u64) -> Option<u64>
    decreases ds.len(),
{
    if ds.len() == 0 {
        None
    } else if ds[0].id == id {
        Some(ds[0].block)
    } else {
        block_of_id(ds.drop_first(), id)
    }
}

/// The block of the first entry carrying `filepath`.
pub open spec fn block_of_file(ds: Seq<DirEntryV>, filepath: Seq<char>) -> Option<u64>
    decreases ds.len(),
{
    if ds.len() == 0 {
        None
    } else if ds[0].filepath == filepath {
        Some(ds[0].block)
    } else {
        block_of_file(ds.drop_first(), filepath)
    }
}

/// The id of the first entry carrying `filepath`.
pub open spec fn id_of_file(ds: Seq<DirEntryV>, filepath: Seq<char>) -> Option<u64>
    decreases ds.len(),
{
    if ds.len() == 0 {
        None
    } else if ds[0].filepath == filepath {
        Some(ds[0].id)
    } else {
        id_of_file(ds.drop_first(), filepath)
    }
}

impl Directory {
    /// No two entries share an id.
    pub open spec fn wf(&self) -> bool {
        forall|i: int, j: int|
            0 <= i < j < self@.len() ==> (#[trigger] self@[i]).id != (#[trigger] self@[j]).id
    }

    /// Number of entries (lines) in the directory.  In a well-formed
    /// directory ids are unique, so this is also the number of distinct
    /// ids; a directory with duplicate ids counts its lines.
    pub fn len(&self) -> (r: usize)
        ensures
            r == self@.len(),
    {
        self.entries.len()
    }

    /// An empty directory.
    pub fn empty() -> (r: Directory)
        ensures
            r@.len() == 0,
            r.wf(),
    {
        Directory { entries: Vec::new() }
    }

    /// The block holding the given id, if the directory lists it: the
    /// first matching line wins.
    pub fn id_map(&self, id: u64) -> (r: Option<u64>)
        ensures
            r == block_of_id(self@, id),
    {
        let n = self.entries.len();
        let mut i: usize = 0;
        proof {
            assert(self@.skip(0) =~= self@);
        }
        while i < n
            invariant
                i <= n,
                n == self@.len(),
                block_of_id(self@, id) == block_of_id(self@.skip(i as int), id),
            decreases n - i,
        {
            proof {
                assert(self@.skip(i as int)[0] == self@[i as int]);
                assert(self@.skip(i as int).drop_first() =~= self@.skip(i as int + 1));
            }
            if self.entries[i].id == id {
                return Some(self.entries[i].block);
            }
            i = i + 1;
        }
        proof {
            assert(self@.skip(n as int) =~= Seq::<DirEntryV>::empty());
        }
        None
    }

    /// The block holding the given filepath, if the directory lists it:
    /// the first matching line wins.
    pub fn file_map(&self, filepath: &str) -> (r: Option<u64>)
        ensures
            r == block_of_file(self@, filepath@),
    {
        let n = self.entries.len();
        let mut i: usize = 0;
        proof {
            assert(self@.skip(0) =~= self@);
        }
        while i < n
            invariant
                i <= n,
                n == self@.len(),
                block_of_file(self@, filepath@) == block_of_file(self@.skip(i as int), filepath@),
            decreases n - i,
        {
            proof {
                assert(self@.skip(i as int)[0] == self@[i as int]);
                assert(self@.skip(i as int).drop_first() =~= self@.skip(i as int + 1));
            }
            if crate::text::str_eq(self.entries[i].filepath.as_str(), filepath) {
                return Some(self.entries[i].block);
            }
            i = i + 1;
        }
        proof {
            assert(self@.skip(n as int) =~= Seq::<DirEntryV>::empty());
        }
        None
    }

    /// The id assigned to the given filepath, if the directory lists it:
    /// the first matching line wins.
    pub fn file_id_map(&self, filepath: &str) -> (r: Option<u64>)
        ensures
            r == id_of_file(self@, filepath@),
    {
        let n = self.entries.len();
        let mut i: usize = 0;
        proof {
            assert(self@.skip(0) =~= self@);
        }
        while i < n
            invariant
                i <= n,
                n == self@.len(),
                id_of_file(self@, filepath@) == id_of_file(self@.skip(i as int), filepath@),
            decreases n - i,
        {
            proof {
                assert(self@.skip(i as int)[0] == self@[i as int]);
                assert(self@.skip(i as int).drop_first() =~= self@.skip(i as int + 1));
            }
            if crate::text::str_eq(self.entries[i].filepath.as_str(), filepath) {
                return Some(self.entries[i].id);
            }
            i = i + 1;
        }
        proof {
            assert(self@.skip(n as int) =~= Seq::<DirEntryV>::empty());
        }
        None
    }
}

/// A numeral token: non-empty, all digits, value within `u64`.
pub open spec fn is_numeral(w: Seq<char>) -> bool {
    w.len() >= 1 && all_digits(w) && dec_value(w) <= u64::MAX
}

/// One directory line, parsed: the first field is the id, the last is the
/// block, and everything between is joined with no separator to form the
/// filepath.
pub open spec fn parse_line(s: Seq<char>) -> Option<DirEntryV> {
    let tk = split_tokens(s, false);
    if tk.len() < 2 {
        None
    } else if !is_numeral(tk[0]) || !is_numeral(tk[tk.len() - 1]) {
        None
    } else {
        Some(
            DirEntryV {
                id: dec_value(tk[0]) as u64,
                filepath: concat_words(tk.subrange(1, tk.len() - 1)),
                block: dec_value(tk[tk.len() - 1]) as u64,
            },
        )
    }
}

/// All lines of a directory file, parsed; `None` as soon as one line is
/// malformed.
pub open spec fn parse_lines(lines: Seq<Seq<char>>) -> Option<Seq<DirEntryV>>
    decreases lines.len(),
{
    if lines.len() == 0 {
        Some(Seq::empty())
    } else {
        match parse_lines(lines.drop_last()) {
            None => None,
            Some(init) => match parse_line(lines.last()) {
                None => None,
                Some(e) => Some(init.push(e)),
            },
        }
    }
}

/// The whole directory file: blank lines are dropped, every other line
/// must parse.
pub open spec fn parse_directory_text(s: Seq<char>) -> Option<Seq<DirEntryV>> {
    parse_lines(split_tokens(s, true))
}

/// One malformed line spoils the whole file.
proof fn lemma_parse_lines_fail(lines: Seq<Seq<char>>, i: int)
    requires
        0 <= i < lines.len(),
        parse_line(lines[i]) is None,
    ensures
        parse_lines(lines) is None,
    decreases lines.len(),
{
    if lines.len() > 0 {
        if i == lines.len() - 1 {
            assert(lines.last() == lines[i]);
        } else {
            assert(lines.drop_last()[i] == lines[i]);
            lemma_parse_lines_fail(lines.drop_last(), i);
        }
    }
}

/// Read a directory from the text of its side file.
///
/// Succeeds exactly when every non-blank line parses, and then returns
/// those lines in order; an empty or all-blank text yields an empty
/// directory.
pub fn parse_directory(text: &str) -> (r: Result<Directory, StoreError>)
    ensures
        match r {
            Ok(d) => parse_directory_text(text@) == Some(d@),
            Err(e) => e == StoreError::Corrupt && parse_directory_text(text@) is None,
        },
{
    let chars = string_to_chars(text);
    let lines = tokenize(&chars, true);
    let mut entries: Vec<DirectoryEntry> = Vec::new();
    let n = lines.len();
    let mut i: usize = 0;
    while i < n
        invariant
            i <= n,
            n == lines@.len(),
            words_view(lines@) == split_tokens(text@, true),
            parse_lines(words_view(lines@).take(i as int)) == Some(entries_view(entries@)),
        decreases n - i,
    {
        let line = &lines[i];
        let fields = tokenize(line, false);
        let ghost lv = words_view(lines@);
        proof {
            assert(lv.take(i as int + 1).drop_last() =~= lv.take(i as int));
            assert(lv.take(i as int + 1).last() == lv[i as int]);
            assert(lv[i as int] == line@);
        }
        if fields.len() < 2 {
            proof {
                assert(parse_line(lv[i as int]) is None);
                lemma_parse_lines_fail(lv, i as int);
            }
            return Err(StoreError::Corrupt);
        }
        let id = match parse_u64_chars(&fields[0]) {
            Some(v) => v,
            None => {
                proof {
                    assert(words_view(fields@)[0] == fields@[0]@);
                    assert(!is_numeral(split_tokens(lv[i as int], false)[0]));
                    assert(parse_line(lv[i as int]) is None);
                    lemma_parse_lines_fail(lv, i as int);
                }
                return Err(StoreError::Corrupt);
            },
        };
        let last = fields.len() - 1;
        let block = match parse_u64_chars(&fields[last]) {
            Some(v) => v,
            None => {
                proof {
                    assert(words_view(fields@)[last as int] == fields@[last as int]@);
                    assert(!is_numeral(split_tokens(lv[i as int], false)[last as int]));
                    assert(parse_line(lv[i as int]) is None);
                    lemma_parse_lines_fail(lv, i as int);
                }
                return Err(StoreError::Corrupt);
            },
        };
        let path_chars = join_words(&fields, 1, last);
        let filepath = string_from_chars(&path_chars);
        let entry = DirectoryEntry { id, filepath, block };
        let ghost e0 = entries_view(entries@);
        entries.push(entry);
        proof {
            assert(words_view(fields@)[0] == fields@[0]@);
            assert(words_view(fields@)[last as int] == fields@[last as int]@);
            assert(parse_line(lv[i as int]) == Some(entry@));
            assert(entries_view(entries@) =~= e0.push(entry@));
        }
        i = i + 1;
    }
    proof {
        assert(words_view(lines@).take(n as int) =~= words_view(lines@));
    }
    Ok(Directory { entries })
}

/// Appending a separator character leaves the token list unchanged.
proof fn lemma_split_push_sep(s: Seq<char>, c: char, newline_only: bool)
    requires
        sep_for(newline_only, c),
    ensures
        split_tokens(s.push(c), newline_only) == split_tokens(s, newline_only),
{
    assert(s.push(c).drop_last() =~= s);
}

/// Appending a separator-free word after a separator (or at the start)
/// appends exactly one token.
proof fn lemma_split_push_word(s: Seq<char>, w: Seq<char>, newline_only: bool)
    requires
        w.len() >= 1,
        forall|i: int| 0 <= i < w.len() ==> !sep_for(newline_only, #[trigger] w[i]),
        s.len() == 0 || sep_for(newline_only, s.last()),
    ensures
        split_tokens(s + w, newline_only) == split_tokens(s, newline_only).push(w),
    decreases w.len(),
{
    if w.len() == 1 {
        let p = s + w;
        assert(p =~= s.push(w[0]));
        assert(p.drop_last() =~= s);
        if s.len() == 0 {
            assert(split_tokens(p, newline_only) =~= split_tokens(s, newline_only).push(w)) by {
                assert(seq![w[0]] =~= w);
            }
        } else {
            assert(p[p.len() - 2] == s.last());
            assert(seq![w[0]] =~= w);
            assert(split_tokens(p, newline_only) =~= split_tokens(s, newline_only).push(w));
        }
    } else {
        let w0 = w.drop_last();
        lemma_split_push_word(s, w0, newline_only);
        let p = s + w;
        let p0 = s + w0;
        assert(p.drop_last() =~= p0);
        assert(p.last() == w.last());
        assert(p[p.len() - 2] == w0.last());
        let base = split_tokens(s, newline_only);
        assert(split_tokens(p0, newline_only) == base.push(w0));
        assert(split_tokens(p, newline_only) == base.push(w0).update(base.len() as int, w0.push(
            w.last(),
        )));
        assert(w0.push(w.last()) =~= w);
        assert(base.push(w0).update(base.len() as int, w) =~= base.push(w));
    }
}

/// Digits and the characters of a whitespace-free filepath are not
/// separators.
proof fn lemma_digits_not_sep(w: Seq<char>)
    requires
        all_digits(w),
    ensures
        forall|i: int| 0 <= i < w.len() ==> !is_space(#[trigger] w[i]),
        forall|i: int| 0 <= i < w.len() ==> !sep_for(true, #[trigger] w[i]),
        forall|i: int| 0 <= i < w.len() ==> !sep_for(false, #[trigger] w[i]),
{
    assert forall|i: int| 0 <= i < w.len() implies !is_space(#[trigger] w[i]) by {
        assert(48 <= w[i] as u32);
        assert(' ' as u32 == 32 && '\t' as u32 == 9 && '\n' as u32 == 10 && '\r' as u32 == 13);
    }
}

/// No character of `s` is whitespace.
pub open spec fn space_free(s: Seq<char>) -> bool {
    forall|i: int| 0 <= i < s.len() ==> !is_space(#[trigger] s[i])
}

/// Every filepath of the directory is whitespace-free; only such
/// directories render to a text that parses back exactly.
pub open spec fn dir_space_free(ds: Seq<DirEntryV>) -> bool {
    forall|i: int| 0 <= i < ds.len() ==> space_free((#[trigger] ds[i]).filepath)
}

/// The exact text of one rendered entry: the id's numeral, a space, the
/// filepath, a space after a non-empty filepath, and the block's numeral.
pub open spec fn line_text(e: DirEntryV) -> Seq<char> {
    dec_numeral(e.id as int) + seq![' '] + e.filepath + (if e.filepath.len() > 0 {
        seq![' ']
    } else {
        Seq::<char>::empty()
    }) + dec_numeral(e.block as int)
}

/// The exact text of a rendered directory: its lines joined by single
/// newlines, with no trailing newline.
pub open spec fn directory_text(ds: Seq<DirEntryV>) -> Seq<char>
    decreases ds.len(),
{
    if ds.len() == 0 {
        Seq::<char>::empty()
    } else if ds.len() == 1 {
        line_text(ds[0])
    } else {
        directory_text(ds.drop_last()) + seq!['\n'] + line_text(ds.last())
    }
}

/// The rendered text of one entry: `<id> <filepath> <block>`.
///
/// The text is pinned exactly; for whitespace-free filepaths the line
/// contains no newline and parses back to the entry.
fn render_line(e: &DirectoryEntry) -> (r: Vec<char>)
    ensures
        r@ == line_text(e@),
        space_free(e.filepath@) ==> {
            &&& r@.len() >= 1
            &&& forall|i: int| 0 <= i < r@.len() ==> !sep_for(true, #[trigger] r@[i])
            &&& parse_line(r@) == Some(e@)
        },
{
    let id_chars = render_u64_chars(e.id);
    let block_chars = render_u64_chars(e.block);
    let path_chars = string_to_chars(e.filepath.as_str());

    let mut out: Vec<char> = Vec::new();

    // id
    let mut k: usize = 0;
    while k < id_chars.len()
        invariant
            k <= id_chars@.len(),
            out@ == id_chars@.take(k as int),
        decreases id_chars@.len() - k,
    {
        out.push(id_chars[k]);
        proof {
            assert(out@ =~= id_chars@.take(k as int + 1));
        }
        k = k + 1;
    }
    proof {
        assert(out@ =~= id_chars@);
    }
    out.push(' ');

    // filepath
    let ghost after_id = out@;
    let mut k: usize = 0;
    while k < path_chars.len()
        invariant
            k <= path_chars@.len(),
            out@ == after_id + path_chars@.take(k as int),
        decreases path_chars@.len() - k,
    {
        out.push(path_chars[k]);
        proof {
            assert(out@ =~= after_id + path_chars@.take(k as int + 1));
        }
        k = k + 1;
    }
    proof {
        assert(out@ =~= after_id + path_chars@);
    }
    if path_chars.len() > 0 {
        out.push(' ');
    }

    // block
    let ghost after_path = out@;
    let mut k: usize = 0;
    while k < block_chars.len()
        invariant
            k <= block_chars@.len(),
            out@ == after_path + block_chars@.take(k as int),
        decreases block_chars@.len() - k,
    {
        out.push(block_chars[k]);
        proof {
            assert(out@ =~= after_path + block_chars@.take(k as int + 1));
        }
        k = k + 1;
    }

    proof {
        assert(out@ =~= after_path + block_chars@);
        assert(after_id =~= id_chars@ + seq![' ']);
        if path_chars@.len() > 0 {
            assert(after_path =~= after_id + path_chars@ + seq![' ']);
        } else {
            assert(after_path =~= after_id + path_chars@);
            assert(path_chars@ + Seq::<char>::empty() =~= path_chars@);
        }
        assert(e@.filepath == path_chars@);
        assert(out@ =~= line_text(e@));
        lemma_digits_not_sep(id_chars@);
        lemma_digits_not_sep(block_chars@);
        assert(' ' as u32 == 32 && '\n' as u32 == 10);
        if space_free(e.filepath@) {
            // token structure of the line, built left to right
            assert(Seq::<char>::empty() + id_chars@ =~= id_chars@);
            lemma_split_push_word(Seq::<char>::empty(), id_chars@, false);
            assert(split_tokens(Seq::<char>::empty(), false) =~= Seq::<Seq<char>>::empty());
            let t1 = split_tokens(id_chars@, false);
            assert(t1 =~= seq![id_chars@]);
            lemma_split_push_sep(id_chars@, ' ', false);
            assert(after_id =~= id_chars@.push(' '));
            let t2 = split_tokens(after_id, false);
            assert(t2 =~= seq![id_chars@]);
            if path_chars@.len() > 0 {
                lemma_split_push_word(after_id, path_chars@, false);
                let t3 = split_tokens(after_id + path_chars@, false);
                assert(t3 =~= seq![id_chars@, path_chars@]);
                lemma_split_push_sep(after_id + path_chars@, ' ', false);
                assert(after_path =~= (after_id + path_chars@).push(' '));
                let t4 = split_tokens(after_path, false);
                assert(t4 =~= seq![id_chars@, path_chars@]);
                lemma_split_push_word(after_path, block_chars@, false);
                let t5 = split_tokens(out@, false);
                assert(t5 =~= seq![id_chars@, path_chars@, block_chars@]);
                assert(t5.subrange(1, 2) =~= seq![path_chars@]);
                assert(seq![path_chars@].drop_last() =~= Seq::<Seq<char>>::empty());
                assert(Seq::<char>::empty() + path_chars@ =~= path_chars@);
                assert(concat_words(Seq::<Seq<char>>::empty()) == Seq::<char>::empty());
                assert(concat_words(seq![path_chars@]) == path_chars@);
                assert(parse_line(out@) == Some(e@));
            } else {
                assert(after_path =~= after_id);
                assert(path_chars@ =~= Seq::<char>::empty());
                lemma_split_push_word(after_path, block_chars@, false);
                let t5 = split_tokens(out@, false);
                assert(t5 =~= seq![id_chars@, block_chars@]);
                assert(t5.subrange(1, 1) =~= Seq::<Seq<char>>::empty());
                assert(e.filepath@ =~= Seq::<char>::empty());
                assert(parse_line(out@) == Some(e@));
            }
            // every character of the line is a digit, a space or a
            // filepath character: never a newline
            assert forall|i: int| 0 <= i < out@.len() implies !sep_for(true, #[trigger] out@[i]) by {
                if i < after_id.len() {
                    if i < id_chars@.len() {
                        assert(out@[i] == id_chars@[i]);
                    } else {
                        assert(out@[i] == ' ');
                    }
                } else if i < after_path.len() {
                    if i - after_id.len() < path_chars@.len() {
                        assert(out@[i] == path_chars@[i - after_id.len()]);
                    } else {
                        assert(out@[i] == ' ');
                    }
                } else {
                    assert(out@[i] == block_chars@[i - after_path.len()]);
                }
            }
        }
    }
    out
}

/// Render a directory as the text of its side file, one line per entry.
///
/// The text is pinned exactly: the entries' lines joined by single
/// newlines.  Whenever no filepath contains whitespace, parsing the
/// result returns exactly the directory's entries.
pub fn render_directory(d: &Directory) -> (r: String)
    ensures
        r@ == directory_text(d@),
        dir_space_free(d@) ==> parse_directory_text(r@) == Some(d@),
{
    let mut out: Vec<char> = Vec::new();
    let n = d.entries.len();
    proof {
        assert(d@.take(0) =~= Seq::<DirEntryV>::empty());
    }
    let mut i: usize = 0;
    while i < n
        invariant
            i <= n,
            n == d@.len(),
            i == 0 ==> out@.len() == 0,
            out@ == directory_text(d@.take(i as int)),
            dir_space_free(d@) ==> {
                &&& parse_lines(split_tokens(out@, true)) == Some(d@.take(i as int))
                &&& out@.len() == 0 || !sep_for(true, out@.last())
            },
        decreases n - i,
    {
        let ghost out0 = out@;
        if i > 0 {
            out.push('\n');
        }
        let ghost with_sep = out@;
        let line = render_line(&d.entries[i]);
        let mut k: usize = 0;
        while k < line.len()
            invariant
                k <= line@.len(),
                out@ == with_sep + line@.take(k as int),
            decreases line@.len() - k,
        {
            out.push(line[k]);
            proof {
                assert(out@ =~= with_sep + line@.take(k as int + 1));
            }
            k = k + 1;
        }
        proof {
            assert(out@ =~= with_sep + line@);
            assert(d@[i as int] == d.entries@[i as int]@);
            assert(line@ == line_text(d@[i as int]));
            let taken = d@.take(i as int + 1);
            assert(taken.len() == i + 1);
            assert(taken.last() == d@[i as int]);
            if i == 0 {
                assert(with_sep =~= out0);
                assert(out0.len() == 0);
                assert(out@ =~= line@);
                assert(taken[0] == d@[0]);
                assert(directory_text(taken) == line_text(taken[0]));
            } else {
                assert(taken.drop_last() =~= d@.take(i as int));
                assert(with_sep =~= out0.push('\n'));
                assert(directory_text(taken) == directory_text(taken.drop_last()) + seq!['\n']
                    + line_text(taken.last()));
                assert(out@ =~= out0 + seq!['\n'] + line@);
            }
            assert(out@ == directory_text(d@.take(i as int + 1)));
            if dir_space_free(d@) {
                assert(space_free(d@[i as int].filepath));
                if i > 0 {
                    assert(with_sep =~= out0.push('\n'));
                    lemma_split_push_sep(out0, '\n', true);
                    assert('\n' as u32 == 10);
                } else {
                    assert(with_sep =~= out0);
                }
                lemma_split_push_word(with_sep, line@, true);
                assert(split_tokens(out@, true) == split_tokens(with_sep, true).push(line@));
                assert(split_tokens(with_sep, true) == split_tokens(out0, true));
                let lines2 = split_tokens(out@, true);
                assert(lines2.drop_last() =~= split_tokens(out0, true));
                assert(lines2.last() == line@);
                assert(d@.take(i as int + 1).drop_last() =~= d@.take(i as int));
                assert(d@.take(i as int + 1).last() == d@[i as int]);
                assert(parse_lines(lines2) == Some(d@.take(i as int + 1)));
                assert(out@.last() == line@.last());
            }
        }
        i = i + 1;
    }
    proof {
        assert(d@.take(n as int) =~= d@);
    }
    string_from_chars(&out)
}

} // verus!
